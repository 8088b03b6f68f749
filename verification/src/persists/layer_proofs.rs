//! What holds of the engine while tables are flushed in the background: as
//! long as the layers are in the order of their age, a flush changes nothing
//! that a read sees.
use crate::persists::kv_store::{
    flushed_model, newer_version, read_model, record_held, record_key, rotates, sealed_lookup,
    seq_of, version_model, without_id, StoreModel,
};
use crate::persists::kv_store_proofs::{
    last_write, layered, lemma_read_after_write, lemma_sealed_lookup_source, lemma_table_get_entry,
    lemma_write_keeps_other_keys, record_of, step, tables_sorted, Operation,
};
use crate::persists::lsm_tree::lsm_manager::{add_to_first_level, level_lookup, newer_entry};
use crate::persists::memtable::btree_map::{lemma_put_entry, lemma_put_entry_member};
use crate::persists::memtable::memtable_trait::{
    as_table, keys_sorted, put_entry, table_get, EntryPair, ValueModel,
};
use crate::persists::sst::flush_worker::{keys_have_bytes, lemma_flush_reads_back};
use crate::persists::sst::sorted_string_table::{lemma_find_key, sst_entries, sst_lookup};
use crate::persists::sst::sst_writer::{flushed_entries, sst_image};
use vstd::prelude::*;

verus! {

/// Every sequence number in `entries` is smaller than `bound`.
pub open spec fn all_below(entries: Seq<EntryPair>, bound: int) -> bool {
    forall|i: int| 0 <= i < entries.len() ==> seq_of((#[trigger] entries[i]).1) < bound
}

/// Every entry of `older` has a smaller sequence number than every entry of
/// `newer`.
pub open spec fn older_than(older: Seq<EntryPair>, newer: Seq<EntryPair>) -> bool {
    forall|i: int, j: int|
        0 <= i < older.len() && 0 <= j < newer.len() ==> seq_of((#[trigger] older[i]).1) < seq_of(
            (#[trigger] newer[j]).1,
        )
}

/// Every entry of the table on disk with the bytes `table` has a sequence
/// number below `bound`.
pub open spec fn disk_below(table: Seq<u8>, bound: int) -> bool {
    forall|i: int| 0 <= i < sst_entries(table).len() ==> (#[trigger] sst_entries(table)[i]).seq < bound
}

/// Every entry of the table on disk with the bytes `table` has a smaller
/// sequence number than every entry of `newer`.
pub open spec fn disk_older_than(table: Seq<u8>, newer: Seq<EntryPair>) -> bool {
    forall|i: int, j: int|
        0 <= i < sst_entries(table).len() && 0 <= j < newer.len() ==> (#[trigger] sst_entries(
            table,
        )[i]).seq < seq_of((#[trigger] newer[j]).1)
}

/// The memory tables are in the order of their age: what was set aside
/// earlier holds smaller sequence numbers than what was set aside later, and
/// the memory table that takes the writes holds the largest. All of them were
/// given out already, the identifiers of the tables that were set aside are
/// all different, and no key is empty.
pub open spec fn memory_in_age_order(s: StoreModel) -> bool {
    &&& tables_sorted(s)
    &&& keys_have_bytes(s.active)
    &&& all_below(s.active, s.next_seq as int)
    &&& forall|i: int|
        0 <= i < s.sealed.len() ==> {
            &&& keys_have_bytes((#[trigger] s.sealed[i]).1)
            &&& all_below(s.sealed[i].1, s.next_seq as int)
            &&& older_than(s.sealed[i].1, s.active)
            &&& s.sealed[i].0 < s.next_seq
        }
    &&& forall|i: int, j: int|
        0 <= i < j < s.sealed.len() ==> {
            &&& older_than((#[trigger] s.sealed[i]).1, (#[trigger] s.sealed[j]).1)
            &&& s.sealed[i].0 != s.sealed[j].0
        }
}

/// The tables on disk hold smaller sequence numbers than the memory tables.
pub open spec fn disk_is_oldest(s: StoreModel) -> bool {
    forall|level: int, t: int|
        0 <= level < s.levels.len() && 0 <= t < s.levels[level].len() ==> {
            &&& disk_below((#[trigger] s.levels[level][t]), s.next_seq as int)
            &&& disk_older_than(s.levels[level][t], s.active)
            &&& forall|i: int|
                0 <= i < s.sealed.len() ==> disk_older_than(
                    s.levels[level][t],
                    (#[trigger] s.sealed[i]).1,
                )
        }
}

/// The layers of the engine are in the order of their age.
pub open spec fn in_age_order(s: StoreModel) -> bool {
    &&& memory_in_age_order(s)
    &&& disk_is_oldest(s)
}

/// Layers that are in the order of their age are in order for reading.
pub proof fn lemma_age_order_is_layered(s: StoreModel)
    requires
        memory_in_age_order(s),
    ensures
        layered(s),
{
    assert forall|i: int, j: int|
        0 <= i < s.sealed.len() && 0 <= j < s.sealed[i].1.len() implies seq_of(
        (#[trigger] s.sealed[i].1[j]).1,
    ) < s.next_seq by {
        assert(all_below(s.sealed[i].1, s.next_seq as int));
    }
    assert forall|key: Seq<u8>|
        (#[trigger] table_get(as_table(s.active), key)) is Some && sealed_lookup(
            s.sealed,
            key,
        ) is Some implies seq_of(table_get(as_table(s.active), key)->0) >= seq_of(
        sealed_lookup(s.sealed, key)->0,
    ) by {
        let i = lemma_sealed_lookup_source(s.sealed, key);
        let a = lemma_table_get_entry(s.sealed[i].1, key);
        let b = lemma_table_get_entry(s.active, key);
        assert(older_than(s.sealed[i].1, s.active));
    }
}

/// A write with the next sequence number, to a key that is not empty, keeps
/// the layers in the order of their age, as long as the numbers do not run
/// out.
pub proof fn lemma_step_keeps_age_order(s: StoreModel, max: int, op: Operation)
    requires
        in_age_order(s),
        s.next_seq < u64::MAX,
        record_key(record_of(op, s.next_seq)).len() >= 1,
    ensures
        in_age_order(step(s, max, op)),
{
    let record = record_of(op, s.next_seq);
    let key = record_key(record);
    let held = record_held(record);
    let after = step(s, max, op);
    let rotated = rotates(s, max, key, held);
    let base: Seq<EntryPair> = if rotated {
        Seq::empty()
    } else {
        s.active
    };
    lemma_put_entry(base, key, held);
    assert(after.active == put_entry(base, key, held));
    assert(seq_of(held) == s.next_seq);
    // every entry of the memory table that takes the writes is the new one,
    // or was there before
    assert forall|x: int| 0 <= x < after.active.len() implies (#[trigger] after.active[x]) == (
        key,
        held,
    ) || exists|y: int| 0 <= y < base.len() && base[y] == after.active[x] by {
        let y = lemma_put_entry_member(base, key, held, x);
    }
    assert(keys_have_bytes(after.active));
    assert(all_below(after.active, after.next_seq as int));
    assert forall|i: int| 0 <= i < after.sealed.len() implies {
        &&& keys_have_bytes((#[trigger] after.sealed[i]).1)
        &&& all_below(after.sealed[i].1, after.next_seq as int)
        &&& older_than(after.sealed[i].1, after.active)
        &&& after.sealed[i].0 < after.next_seq
        &&& keys_sorted(after.sealed[i].1)
    } by {
        let table = after.sealed[i].1;
        if i < s.sealed.len() {
            assert(after.sealed[i] == s.sealed[i]);
            assert(older_than(s.sealed[i].1, s.active));
        } else {
            assert(table == s.active);
        }
        assert(all_below(table, s.next_seq as int));
        assert forall|a: int, b: int|
            0 <= a < table.len() && 0 <= b < after.active.len() implies seq_of(
            (#[trigger] table[a]).1,
        ) < seq_of((#[trigger] after.active[b]).1) by {
            if after.active[b] != (key, held) {
                let y = choose|y: int| 0 <= y < base.len() && base[y] == after.active[b];
                assert(seq_of(table[a].1) < seq_of(s.active[y].1));
            }
        }
    }
    assert forall|i: int, j: int| 0 <= i < j < after.sealed.len() implies {
        &&& older_than((#[trigger] after.sealed[i]).1, (#[trigger] after.sealed[j]).1)
        &&& after.sealed[i].0 != after.sealed[j].0
    } by {
        assert(after.sealed[i] == s.sealed[i]);
        if j < s.sealed.len() {
            assert(after.sealed[j] == s.sealed[j]);
        } else {
            assert(after.sealed[j].1 == s.active);
            assert(older_than(s.sealed[i].1, s.active));
        }
    }
    assert forall|level: int, t: int|
        0 <= level < after.levels.len() && 0 <= t < after.levels[level].len() implies {
        &&& disk_below((#[trigger] after.levels[level][t]), after.next_seq as int)
        &&& disk_older_than(after.levels[level][t], after.active)
        &&& forall|i: int|
            0 <= i < after.sealed.len() ==> disk_older_than(
                after.levels[level][t],
                (#[trigger] after.sealed[i]).1,
            )
    } by {
        let table = s.levels[level][t];
        assert(disk_below(table, s.next_seq as int));
        assert(disk_older_than(table, s.active));
        assert forall|a: int, b: int|
            0 <= a < sst_entries(table).len() && 0 <= b < after.active.len() implies (
        #[trigger] sst_entries(table)[a]).seq < seq_of((#[trigger] after.active[b]).1) by {
            if after.active[b] != (key, held) {
                let y = choose|y: int| 0 <= y < base.len() && base[y] == after.active[b];
                assert(sst_entries(table)[a].seq < seq_of(s.active[y].1));
            }
        }
        assert forall|i: int| 0 <= i < after.sealed.len() implies disk_older_than(
            table,
            (#[trigger] after.sealed[i]).1,
        ) by {
            if i < s.sealed.len() {
                assert(after.sealed[i] == s.sealed[i]);
            } else {
                assert(after.sealed[i].1 == s.active);
            }
        }
    }
}

/// The engine after the oldest of the memory tables that wait to be flushed
/// was flushed, and the engine was told. Nothing changes where no table
/// waits, and where the table cannot be written.
pub open spec fn flush_oldest(s: StoreModel) -> StoreModel {
    if s.sealed.len() > 0 && sst_image(flushed_entries(s.sealed[0].1)) is Ok {
        flushed_model(s, s.sealed[0].0, sst_image(flushed_entries(s.sealed[0].1))->Ok_0)
    } else {
        s
    }
}

/// The choice of the newer version does not depend on how the versions are
/// grouped.
pub proof fn lemma_newer_version_grouping(
    a: Option<ValueModel>,
    b: Option<ValueModel>,
    c: Option<ValueModel>,
)
    ensures
        newer_version(newer_version(a, b), c) == newer_version(a, newer_version(b, c)),
{
}

/// What the memory tables that wait hold under a key is the newer of what
/// the first holds and what the others hold.
pub proof fn lemma_sealed_lookup_front(sealed: Seq<(u64, Seq<EntryPair>)>, key: Seq<u8>)
    requires
        sealed.len() > 0,
    ensures
        sealed_lookup(sealed, key) == newer_version(
            table_get(as_table(sealed.first().1), key),
            sealed_lookup(sealed.drop_first(), key),
        ),
    decreases sealed.len(),
{
    let first = table_get(as_table(sealed.first().1), key);
    let rest = sealed.drop_first();
    if rest.len() == 0 {
        assert(sealed.drop_last() =~= rest);
    } else {
        let last = table_get(as_table(sealed.last().1), key);
        assert(sealed.drop_last().drop_first() =~= rest.drop_last());
        assert(sealed.drop_last().first() == sealed.first());
        assert(rest.last() == sealed.last());
        lemma_sealed_lookup_front(sealed.drop_last(), key);
        lemma_newer_version_grouping(first, sealed_lookup(rest.drop_last(), key), last);
    }
}

/// Taking out an identifier that no table has leaves all tables.
pub proof fn lemma_without_absent_id(sealed: Seq<(u64, Seq<EntryPair>)>, id: u64)
    requires
        forall|i: int| 0 <= i < sealed.len() ==> (#[trigger] sealed[i]).0 != id,
    ensures
        without_id(sealed, id) == sealed,
    decreases sealed.len(),
{
    if sealed.len() > 0 {
        let rest = sealed.drop_first();
        assert forall|i: int| 0 <= i < rest.len() implies (#[trigger] rest[i]).0 != id by {
            assert(rest[i] == sealed[i + 1]);
        }
        lemma_without_absent_id(rest, id);
        assert(sealed[0].0 != id);
        assert(seq![sealed.first()] + rest =~= sealed);
    }
}

/// What a level gives under a key is an entry of one of its tables.
pub proof fn lemma_level_lookup_member(tables: Seq<Seq<u8>>, key: Seq<u8>) -> (place: (int, int))
    requires
        level_lookup(tables, key) is Some,
    ensures
        0 <= place.0 < tables.len(),
        0 <= place.1 < sst_entries(tables[place.0]).len(),
        sst_entries(tables[place.0])[place.1] == level_lookup(tables, key)->0,
    decreases tables.len(),
{
    let found = sst_lookup(tables.last(), key);
    if found == level_lookup(tables, key) {
        let entries = sst_entries(tables.last());
        lemma_find_key(entries, key);
        let x = choose|x: int| 0 <= x < entries.len() && entries[x] == found->0;
        (tables.len() - 1, x)
    } else {
        let place = lemma_level_lookup_member(tables.drop_last(), key);
        assert(tables.drop_last()[place.0] == tables[place.0]);
        place
    }
}

/// After the oldest memory table that waits was flushed, the layers are still
/// in the order of their age.
pub proof fn lemma_flush_oldest_keeps_age_order(s: StoreModel)
    requires
        in_age_order(s),
    ensures
        in_age_order(flush_oldest(s)),
        s.sealed.len() > 0 && sst_image(flushed_entries(s.sealed[0].1)) is Ok ==> {
            &&& flush_oldest(s).sealed == s.sealed.drop_first()
            &&& flush_oldest(s).levels == add_to_first_level(
                s.levels,
                sst_image(flushed_entries(s.sealed[0].1))->Ok_0,
            )
            &&& flush_oldest(s).active == s.active
        },
{
    if s.sealed.len() > 0 && sst_image(flushed_entries(s.sealed[0].1)) is Ok {
        let oldest = s.sealed[0].1;
        let id = s.sealed[0].0;
        let rest = s.sealed.drop_first();
        let image = sst_image(flushed_entries(oldest))->Ok_0;
        let after = flush_oldest(s);
        assert(keys_have_bytes(s.sealed[0].1));
        assert(keys_sorted(s.sealed[0].1));
        lemma_flush_reads_back(oldest, Seq::empty());
        assert forall|i: int| 0 <= i < rest.len() implies (#[trigger] rest[i]).0 != id by {
            assert(rest[i] == s.sealed[i + 1]);
            assert(s.sealed[0].0 != s.sealed[i + 1].0);
        }
        lemma_without_absent_id(rest, id);
        assert(after.sealed == rest);
        assert forall|i: int| 0 <= i < rest.len() implies {
            &&& keys_have_bytes((#[trigger] rest[i]).1)
            &&& all_below(rest[i].1, s.next_seq as int)
            &&& older_than(rest[i].1, s.active)
            &&& rest[i].0 < s.next_seq
            &&& keys_sorted(rest[i].1)
        } by {
            assert(rest[i] == s.sealed[i + 1]);
        }
        assert forall|i: int, j: int| 0 <= i < j < rest.len() implies {
            &&& older_than((#[trigger] rest[i]).1, (#[trigger] rest[j]).1)
            &&& rest[i].0 != rest[j].0
        } by {
            assert(rest[i] == s.sealed[i + 1]);
            assert(rest[j] == s.sealed[j + 1]);
            assert(older_than(s.sealed[i + 1].1, s.sealed[j + 1].1));
        }
        let written = flushed_entries(oldest);
        assert(sst_entries(image) == written);
        assert forall|level: int, t: int|
            0 <= level < after.levels.len() && 0 <= t < after.levels[level].len() implies {
            &&& disk_below((#[trigger] after.levels[level][t]), after.next_seq as int)
            &&& disk_older_than(after.levels[level][t], after.active)
            &&& forall|i: int|
                0 <= i < after.sealed.len() ==> disk_older_than(
                    after.levels[level][t],
                    (#[trigger] after.sealed[i]).1,
                )
        } by {
            let table = after.levels[level][t];
            if table == image {
                assert forall|x: int| 0 <= x < sst_entries(table).len() implies (
                #[trigger] sst_entries(table)[x]).seq < after.next_seq as int by {
                    assert(written[x].seq == seq_of(oldest[x].1));
                    assert(all_below(s.sealed[0].1, s.next_seq as int));
                }
                assert forall|x: int, y: int|
                    0 <= x < sst_entries(table).len() && 0 <= y < after.active.len() implies (
                #[trigger] sst_entries(table)[x]).seq < seq_of((#[trigger] after.active[y]).1) by {
                    assert(written[x].seq == seq_of(oldest[x].1));
                    assert(older_than(s.sealed[0].1, s.active));
                }
                assert forall|i: int| 0 <= i < after.sealed.len() implies disk_older_than(
                    table,
                    (#[trigger] after.sealed[i]).1,
                ) by {
                    assert(rest[i] == s.sealed[i + 1]);
                    assert(older_than(s.sealed[0].1, s.sealed[i + 1].1));
                    assert forall|x: int, y: int|
                        0 <= x < sst_entries(table).len() && 0 <= y < rest[i].1.len() implies (
                    #[trigger] sst_entries(table)[x]).seq < seq_of((#[trigger] rest[i].1[y]).1) by {
                        assert(written[x].seq == seq_of(oldest[x].1));
                    }
                }
            } else {
                assert(level < s.levels.len() && t < s.levels[level].len() && s.levels[level][t]
                    == table) by {
                    if s.levels.len() > 0 && level == 0 {
                        assert(after.levels[0] == s.levels[0].push(image));
                    }
                }
                assert(disk_below(s.levels[level][t], s.next_seq as int));
                assert forall|i: int| 0 <= i < after.sealed.len() implies disk_older_than(
                    table,
                    (#[trigger] after.sealed[i]).1,
                ) by {
                    assert(rest[i] == s.sealed[i + 1]);
                    assert(disk_older_than(s.levels[level][t], s.sealed[i + 1].1));
                }
            }
        }
    }
}

/// A flush changes nothing that a read sees. After the oldest of the memory
/// tables that wait was flushed, a read of any key goes by the version that
/// it went by before, where the layers were in the order of their age.
pub proof fn lemma_flush_oldest_keeps_reads(s: StoreModel, key: Seq<u8>)
    requires
        in_age_order(s),
    ensures
        version_model(flush_oldest(s), key) == version_model(s, key),
        read_model(flush_oldest(s), key) == read_model(s, key),
{
    if s.sealed.len() > 0 && sst_image(flushed_entries(s.sealed[0].1)) is Ok {
        let oldest = s.sealed[0].1;
        let rest = s.sealed.drop_first();
        let image = sst_image(flushed_entries(oldest))->Ok_0;
        let after = flush_oldest(s);
        lemma_flush_oldest_keeps_age_order(s);
        assert(keys_have_bytes(s.sealed[0].1));
        assert(keys_sorted(s.sealed[0].1));
        lemma_flush_reads_back(oldest, key);
        lemma_sealed_lookup_front(s.sealed, key);
        let in_oldest = table_get(as_table(oldest), key);
        let in_rest = sealed_lookup(rest, key);
        // what the other tables hold is newer than what the oldest holds
        if in_oldest is Some && in_rest is Some {
            let i = lemma_sealed_lookup_source(rest, key);
            let a = lemma_table_get_entry(rest[i].1, key);
            let b = lemma_table_get_entry(oldest, key);
            assert(rest[i] == s.sealed[i + 1]);
            assert(older_than(s.sealed[0].1, s.sealed[i + 1].1));
        }
        // the first level with the new table
        let level0: Seq<Seq<u8>> = if s.levels.len() == 0 {
            Seq::empty()
        } else {
            s.levels[0]
        };
        let grown = level0.push(image);
        assert(grown.drop_last() =~= level0);
        assert(level_lookup(grown, key) == newer_entry(
            level_lookup(level0, key),
            sst_lookup(image, key),
        ));
        if s.levels.len() == 0 {
            assert(after.levels =~= seq![grown]);
            assert(after.levels.drop_first() =~= s.levels);
        } else {
            assert(after.levels.first() == grown);
            assert(after.levels.drop_first() =~= s.levels.drop_first());
        }
        if in_oldest is Some && level_lookup(level0, key) is Some {
            let place = lemma_level_lookup_member(level0, key);
            let b = lemma_table_get_entry(oldest, key);
            assert(disk_older_than(s.levels[0][place.0], s.sealed[0].1));
        }
    }
}

/// What happens to the engine: a client writes, or the oldest of the memory
/// tables that wait is flushed.
pub enum Event {
    Write(Operation),
    FlushOldest,
}

/// The engine after one event.
pub open spec fn after_event(s: StoreModel, max: int, event: Event) -> StoreModel {
    match event {
        Event::Write(op) => step(s, max, op),
        Event::FlushOldest => flush_oldest(s),
    }
}

/// The engine after `events`, in their order.
pub open spec fn run(s: StoreModel, max: int, events: Seq<Event>) -> StoreModel
    decreases events.len(),
{
    if events.len() == 0 {
        s
    } else {
        after_event(run(s, max, events.drop_last()), max, events.last())
    }
}

/// The writes among `events`, in their order.
pub open spec fn writes_of(events: Seq<Event>) -> Seq<Operation>
    decreases events.len(),
{
    if events.len() == 0 {
        Seq::empty()
    } else {
        match events.last() {
            Event::Write(op) => writes_of(events.drop_last()).push(op),
            Event::FlushOldest => writes_of(events.drop_last()),
        }
    }
}

/// Every write among `events` goes to a key of at least one byte.
pub open spec fn writes_have_keys(events: Seq<Event>) -> bool {
    forall|i: int|
        0 <= i < events.len() ==> ((#[trigger] events[i]) matches Event::Write(op) ==> record_key(
            record_of(op, 0),
        ).len() >= 1)
}

/// The layers of an engine that holds nothing are in the order of their age.
pub proof fn lemma_empty_engine_in_age_order(s: StoreModel)
    requires
        s.active.len() == 0,
        s.sealed.len() == 0,
        s.levels.len() == 0,
    ensures
        in_age_order(s),
{
}

/// A read sees the last write, whatever is flushed in between. After any
/// writes and deletions, with flushes of the oldest waiting memory table at
/// any time between them, a read of a key gives the value of the last put to
/// the key, nothing where a deletion of the key came behind it, and what it
/// gave before where none of them wrote to the key. This holds of an engine
/// whose layers are in the order of their age, for keys of at least one byte,
/// as long as the sequence numbers do not run out.
pub proof fn lemma_read_sees_last_write_through_flushes(
    s: StoreModel,
    max: int,
    events: Seq<Event>,
    key: Seq<u8>,
)
    requires
        in_age_order(s),
        s.next_seq + events.len() <= u64::MAX,
        writes_have_keys(events),
    ensures
        in_age_order(run(s, max, events)),
        run(s, max, events).next_seq <= s.next_seq + events.len(),
        read_model(run(s, max, events), key) == match last_write(writes_of(events), key) {
            Some(value) => value,
            None => read_model(s, key),
        },
    decreases events.len(),
{
    if events.len() > 0 {
        let front = events.drop_last();
        let before = run(s, max, front);
        assert(writes_have_keys(front)) by {
            assert forall|i: int| 0 <= i < front.len() implies ((#[trigger] front[i]) matches Event::Write(
                op,
            ) ==> record_key(record_of(op, 0)).len() >= 1) by {
                assert(front[i] == events[i]);
            }
        }
        lemma_read_sees_last_write_through_flushes(s, max, front, key);
        match events.last() {
            Event::Write(op) => {
                let record = record_of(op, before.next_seq);
                assert(events[events.len() - 1] matches Event::Write(w) && w == op);
                assert(record_key(record) == record_key(record_of(op, 0)));
                lemma_step_keeps_age_order(before, max, op);
                lemma_age_order_is_layered(before);
                assert(writes_of(events).drop_last() =~= writes_of(front));
                if record_key(record) == key {
                    lemma_read_after_write(before, max, record);
                } else {
                    lemma_write_keeps_other_keys(before, max, record, key);
                }
            },
            Event::FlushOldest => {
                lemma_flush_oldest_keeps_age_order(before);
                lemma_flush_oldest_keeps_reads(before, key);
            },
        }
    }
}

} // verus!
