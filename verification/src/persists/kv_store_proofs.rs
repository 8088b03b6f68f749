//! What holds of the engine over sequences of writes and reads.
use crate::persists::kv_store::{
    apply_model, read_model, record_held, record_key, replay_model, rotates, sealed_lookup, seq_of,
    version_model, StoreModel,
};
use crate::persists::memtable::btree_map::{lemma_put_entry, lemma_put_entry_member};
use crate::persists::memtable::memtable_trait::{
    as_table, has_key, held_len, index_of, keys_sorted, put_entry, table_get, total_len, EntryPair,
};
use crate::persists::wal::RecordModel;
use vstd::prelude::*;

verus! {

/// A write as a client asks for it, before it has a sequence number.
pub enum Operation {
    Put { key: Seq<u8>, value: Seq<u8> },
    Delete { key: Seq<u8> },
}

/// The record of an operation that was given the sequence number `seq`.
pub open spec fn record_of(op: Operation, seq: u64) -> RecordModel {
    match op {
        Operation::Put { key, value } => RecordModel::Put { key, value, seq },
        Operation::Delete { key } => RecordModel::Delete { key, seq },
    }
}

/// The engine after one operation: it is given the next sequence number and
/// taken into the memory table.
pub open spec fn step(s: StoreModel, max: int, op: Operation) -> StoreModel {
    apply_model(s, max, record_of(op, s.next_seq))
}

/// The engine after `ops`, in their order.
pub open spec fn execute(s: StoreModel, max: int, ops: Seq<Operation>) -> StoreModel
    decreases ops.len(),
{
    if ops.len() == 0 {
        s
    } else {
        step(execute(s, max, ops.drop_last()), max, ops.last())
    }
}

/// The records that are written to the log for `ops`.
pub open spec fn log_of(s: StoreModel, max: int, ops: Seq<Operation>) -> Seq<RecordModel>
    decreases ops.len(),
{
    if ops.len() == 0 {
        Seq::empty()
    } else {
        log_of(s, max, ops.drop_last()).push(
            record_of(ops.last(), execute(s, max, ops.drop_last()).next_seq),
        )
    }
}

/// The sequence number of a record.
pub open spec fn record_seq(record: RecordModel) -> u64 {
    seq_of(record_held(record))
}

/// The log of operations has one record for each, and the engine counts on
/// behind the last. Each operation gets the sequence number that lies as far
/// behind the first as the operation behind the first operation, as long as
/// the numbers do not run out.
pub proof fn lemma_log_sequence_numbers(s: StoreModel, max: int, ops: Seq<Operation>)
    requires
        s.next_seq + ops.len() <= u64::MAX,
    ensures
        log_of(s, max, ops).len() == ops.len(),
        execute(s, max, ops).next_seq == s.next_seq + ops.len(),
        forall|i: int|
            0 <= i < ops.len() ==> record_seq(#[trigger] log_of(s, max, ops)[i]) == s.next_seq + i,
    decreases ops.len(),
{
    if ops.len() > 0 {
        lemma_log_sequence_numbers(s, max, ops.drop_last());
        let front = log_of(s, max, ops.drop_last());
        assert forall|i: int| 0 <= i < ops.len() implies record_seq(
            #[trigger] log_of(s, max, ops)[i],
        ) == s.next_seq + i by {
            if i < ops.len() - 1 {
                assert(log_of(s, max, ops)[i] == front[i]);
            }
        }
    }
}

/// The sequence numbers that the engine gives out are all different, and
/// later writes get larger ones, as long as the numbers do not run out.
pub proof fn lemma_sequence_numbers_increase(
    s: StoreModel,
    max: int,
    ops: Seq<Operation>,
    i: int,
    j: int,
)
    requires
        s.next_seq + ops.len() <= u64::MAX,
        0 <= i < j < ops.len(),
    ensures
        record_seq(log_of(s, max, ops)[i]) < record_seq(log_of(s, max, ops)[j]),
{
    lemma_log_sequence_numbers(s, max, ops);
}

/// Reading the log back gives the engine that wrote it: the writes of the
/// log, taken again in their order by an engine in the state in which the
/// first was in, lead to the state that the first reached.
pub proof fn lemma_replay_restores(s: StoreModel, max: int, ops: Seq<Operation>)
    ensures
        replay_model(s, max, log_of(s, max, ops)) == execute(s, max, ops),
    decreases ops.len(),
{
    if ops.len() > 0 {
        lemma_replay_restores(s, max, ops.drop_last());
        let log = log_of(s, max, ops);
        assert(log.drop_last() =~= log_of(s, max, ops.drop_last()));
    }
}

/// The memory tables of the engine stand in the order of their keys.
pub open spec fn tables_sorted(s: StoreModel) -> bool {
    &&& keys_sorted(s.active)
    &&& forall|i: int| 0 <= i < s.sealed.len() ==> keys_sorted((#[trigger] s.sealed[i]).1)
}

/// Every sequence number in the memory tables was given out already.
pub open spec fn numbers_given_out(s: StoreModel) -> bool {
    &&& forall|i: int| 0 <= i < s.active.len() ==> seq_of((#[trigger] s.active[i]).1) < s.next_seq
    &&& forall|i: int, j: int|
        0 <= i < s.sealed.len() && 0 <= j < s.sealed[i].1.len() ==> seq_of(
            (#[trigger] s.sealed[i].1[j]).1,
        ) < s.next_seq
}

/// What the memory table that takes the writes holds under a key is not
/// older than what the memory tables that wait to be flushed hold under it.
pub open spec fn active_newest(s: StoreModel) -> bool {
    forall|key: Seq<u8>|
        (#[trigger] table_get(as_table(s.active), key)) matches Some(held) ==> (sealed_lookup(
            s.sealed,
            key,
        ) matches Some(older) ==> seq_of(held) >= seq_of(older))
}

/// The layers of the engine are in order: the memory tables are sorted, all
/// their sequence numbers were given out already, and the memory table that
/// takes the writes holds the newest versions.
pub open spec fn layered(s: StoreModel) -> bool {
    &&& tables_sorted(s)
    &&& numbers_given_out(s)
    &&& active_newest(s)
}

/// What the memory tables that wait to be flushed hold under a key is held
/// by one of them.
pub proof fn lemma_sealed_lookup_source(sealed: Seq<(u64, Seq<EntryPair>)>, key: Seq<u8>) -> (i:
    int)
    requires
        sealed_lookup(sealed, key) is Some,
    ensures
        0 <= i < sealed.len(),
        table_get(as_table(sealed[i].1), key) == sealed_lookup(sealed, key),
    decreases sealed.len(),
{
    let last = table_get(as_table(sealed.last().1), key);
    if last == sealed_lookup(sealed, key) {
        sealed.len() - 1
    } else {
        lemma_sealed_lookup_source(sealed.drop_last(), key)
    }
}

/// What a table holds under a key is the contents of one of its entries.
pub proof fn lemma_table_get_entry(entries: Seq<EntryPair>, key: Seq<u8>) -> (i: int)
    requires
        table_get(as_table(entries), key) is Some,
    ensures
        0 <= i < entries.len(),
        entries[i].0 == key,
        table_get(as_table(entries), key) == Some(entries[i].1),
{
    index_of(entries, key)
}

/// A read after a write to the same key sees the write: the value that was
/// put, and nothing after a deletion.
pub proof fn lemma_read_after_write(s: StoreModel, max: int, record: RecordModel)
    requires
        tables_sorted(s),
    ensures
        version_model(apply_model(s, max, record), record_key(record)) == Some(
            record_held(record),
        ),
        read_model(apply_model(s, max, record), record_key(record)) == record_held(record).0,
{
    let key = record_key(record);
    let held = record_held(record);
    if rotates(s, max, key, held) {
        lemma_put_entry(Seq::empty(), key, held);
    } else {
        lemma_put_entry(s.active, key, held);
    }
}

/// A write leaves the other keys as they were, also where it sets the memory
/// table aside: a read of another key gives what it gave before.
pub proof fn lemma_write_keeps_other_keys(
    s: StoreModel,
    max: int,
    record: RecordModel,
    other: Seq<u8>,
)
    requires
        tables_sorted(s),
        active_newest(s),
        other != record_key(record),
    ensures
        version_model(apply_model(s, max, record), other) == version_model(s, other),
        read_model(apply_model(s, max, record), other) == read_model(s, other),
{
    let key = record_key(record);
    let held = record_held(record);
    let after = apply_model(s, max, record);
    if rotates(s, max, key, held) {
        lemma_put_entry(Seq::empty(), key, held);
        assert(after.sealed.drop_last() =~= s.sealed);
    } else {
        lemma_put_entry(s.active, key, held);
    }
}

/// A write with the next sequence number keeps the layers in order, as long
/// as the numbers do not run out.
pub proof fn lemma_step_keeps_layers(s: StoreModel, max: int, op: Operation)
    requires
        layered(s),
        s.next_seq < u64::MAX,
    ensures
        layered(step(s, max, op)),
{
    let record = record_of(op, s.next_seq);
    let key = record_key(record);
    let held = record_held(record);
    let after = step(s, max, op);
    let base: Seq<EntryPair> = if rotates(s, max, key, held) {
        Seq::empty()
    } else {
        s.active
    };
    lemma_put_entry(base, key, held);
    assert(after.active == put_entry(base, key, held));
    // the sequence numbers of the memory table that takes the writes
    assert forall|i: int| 0 <= i < after.active.len() implies seq_of(
        (#[trigger] after.active[i]).1,
    ) < after.next_seq by {
        let j = lemma_put_entry_member(base, key, held, i);
    }
    assert forall|i: int, j: int|
        0 <= i < after.sealed.len() && 0 <= j < after.sealed[i].1.len() implies seq_of(
        (#[trigger] after.sealed[i].1[j]).1,
    ) < after.next_seq by {
        if i < s.sealed.len() {
            assert(after.sealed[i] == s.sealed[i]);
            assert(seq_of(s.sealed[i].1[j].1) < s.next_seq);
        } else {
            assert(after.sealed[i].1 == s.active);
            assert(seq_of(s.active[j].1) < s.next_seq);
        }
    }
    assert forall|i: int| 0 <= i < after.sealed.len() implies keys_sorted(
        (#[trigger] after.sealed[i]).1,
    ) by {
        if i < s.sealed.len() {
            assert(after.sealed[i] == s.sealed[i]);
        }
    }
    assert forall|k: Seq<u8>|
        (#[trigger] table_get(as_table(after.active), k)) is Some && sealed_lookup(
            after.sealed,
            k,
        ) is Some implies seq_of(table_get(as_table(after.active), k)->0) >= seq_of(
        sealed_lookup(after.sealed, k)->0,
    ) by {
        if let Some(older) = sealed_lookup(after.sealed, k) {
            let i = lemma_sealed_lookup_source(after.sealed, k);
            let j = lemma_table_get_entry(after.sealed[i].1, k);
            assert(seq_of(after.sealed[i].1[j].1) < after.next_seq);
            if k == key {
            } else {
                assert(!rotates(s, max, key, held));
                assert(table_get(as_table(s.active), k) == table_get(as_table(after.active), k));
            }
        }
    }
}

/// The layers of an engine that holds nothing are in order.
pub proof fn lemma_empty_engine_layered(s: StoreModel)
    requires
        s.active.len() == 0,
        s.sealed.len() == 0,
    ensures
        layered(s),
{
    assert forall|key: Seq<u8>| (#[trigger] table_get(as_table(s.active), key)) is None by {
        if has_key(s.active, key) {
            let i = index_of(s.active, key);
        }
    }
}

/// What the last of `ops` that writes to `key` leaves under it: the value of
/// a put, nothing after a deletion. There is no answer where none of them
/// writes to the key.
pub open spec fn last_write(ops: Seq<Operation>, key: Seq<u8>) -> Option<Option<Seq<u8>>>
    decreases ops.len(),
{
    if ops.len() == 0 {
        None
    } else {
        match ops.last() {
            Operation::Put { key: written, value } => if written == key {
                Some(Some(value))
            } else {
                last_write(ops.drop_last(), key)
            },
            Operation::Delete { key: written } => if written == key {
                Some(None)
            } else {
                last_write(ops.drop_last(), key)
            },
        }
    }
}

/// A read sees the last write. After any writes and deletions, a read of a
/// key gives the value of the last put to the key, nothing where a deletion
/// of the key came behind it, and what it gave before where none of them
/// wrote to the key. This holds of an engine whose layers are in order, as
/// long as the sequence numbers do not run out.
pub proof fn lemma_read_sees_last_write(
    s: StoreModel,
    max: int,
    ops: Seq<Operation>,
    key: Seq<u8>,
)
    requires
        layered(s),
        s.next_seq + ops.len() <= u64::MAX,
    ensures
        layered(execute(s, max, ops)),
        read_model(execute(s, max, ops), key) == match last_write(ops, key) {
            Some(value) => value,
            None => read_model(s, key),
        },
    decreases ops.len(),
{
    if ops.len() > 0 {
        let front = ops.drop_last();
        let before = execute(s, max, front);
        lemma_read_sees_last_write(s, max, front, key);
        lemma_log_sequence_numbers(s, max, front);
        lemma_step_keeps_layers(before, max, ops.last());
        let record = record_of(ops.last(), before.next_seq);
        if record_key(record) == key {
            lemma_read_after_write(before, max, record);
        } else {
            lemma_write_keeps_other_keys(before, max, record, key);
        }
    }
}

/// A write that fills the memory table to its budget exactly does not have
/// it set aside, and the next write does, where the first wrote to a key
/// that the memory table did not hold.
pub proof fn lemma_rotation_boundary(
    s: StoreModel,
    max: int,
    first: RecordModel,
    second: RecordModel,
)
    requires
        keys_sorted(s.active),
        total_len(s.active) + held_len(record_key(first), record_held(first)) == max,
        !has_key(s.active, record_key(first)),
    ensures
        !rotates(s, max, record_key(first), record_held(first)),
        total_len(apply_model(s, max, first).active) == max,
        rotates(apply_model(s, max, first), max, record_key(second), record_held(second)),
{
    lemma_put_entry(s.active, record_key(first), record_held(first));
}

} // verus!
