//! The engine: it gives the writes their sequence numbers, takes them into
//! the memory table, replaces a memory table that is full, and reads through
//! the layers.
use crate::persists::bytes::{string_from_utf8, to_owned_bytes};
use crate::persists::lsm_tree::lsm_manager::{add_to_first_level, tree_lookup, LsmManager};
use crate::persists::memtable::btree_map::BTreeMemTable;
use crate::persists::memtable::memtable_trait::{
    as_table, encoded_len, has_room, held_len, live_pairs, lookup_model, put_entry, table_get,
    total_len, value_model, EntryPair, LookupResult, MemTable, MemTableValue, ValueModel,
};
use crate::persists::sst::flush_worker::{
    flush_all, holds_entries, is_flush_of, keys_have_bytes, FlushCommand, FlushResult, FlushedTable,
};
use crate::persists::sst::table_result::EntryModel;
use crate::persists::wal::{LogCommand, RecordModel};
use vstd::prelude::*;
use vstd::utf8::{decode_utf8, encode_utf8, valid_utf8};

verus! {

/// Why the engine could not answer.
#[derive(Debug, Clone, Copy, PartialEq, Eq)]
pub enum KvError {
    /// Bytes that were to be handed out as text are not UTF-8.
    InvalidUtf8,
}

/// What the engine holds.
pub struct StoreModel {
    /// The entries of the memory table that takes the writes, in the order of
    /// their keys.
    pub active: Seq<EntryPair>,
    /// The memory tables that take no more writes and wait to be flushed,
    /// each with its identifier, in the order in which they were replaced.
    pub sealed: Seq<(u64, Seq<EntryPair>)>,
    /// The sequence number that the next write gets.
    pub next_seq: u64,
    /// The bytes of the tables that were flushed, level by level.
    pub levels: Seq<Seq<Seq<u8>>>,
    /// Whether a memory table was set aside since the flush worker was last
    /// asked to flush.
    pub flush_pending: bool,
}

/// The sequence number that is given out behind `seq`. The count starts over
/// behind the largest number.
pub open spec fn next_after(seq: u64) -> u64 {
    if seq == u64::MAX {
        0
    } else {
        (seq + 1) as u64
    }
}

/// The sequence number of what is held under a key.
pub open spec fn seq_of(held: ValueModel) -> u64 {
    held.1
}

/// Whether the memory table is replaced before it takes `held` under `key`:
/// it is where it has no room for the entry.
pub open spec fn rotates(s: StoreModel, max: int, key: Seq<u8>, held: ValueModel) -> bool {
    !has_room(total_len(s.active), held_len(key, held), max)
}

/// The engine after it took `held` under `key` into the memory table. A
/// memory table that has no room for the entry is set aside before, under
/// the sequence number of the write as its identifier, and an empty one
/// takes its place.
pub open spec fn write_model(
    s: StoreModel,
    max: int,
    key: Seq<u8>,
    held: ValueModel,
) -> StoreModel {
    if rotates(s, max, key, held) {
        StoreModel {
            active: put_entry(Seq::empty(), key, held),
            sealed: s.sealed.push((seq_of(held), s.active)),
            flush_pending: true,
            ..s
        }
    } else {
        StoreModel { active: put_entry(s.active, key, held), ..s }
    }
}

/// The key of a record.
pub open spec fn record_key(record: RecordModel) -> Seq<u8> {
    match record {
        RecordModel::Put { key, .. } => key,
        RecordModel::Delete { key, .. } => key,
    }
}

/// What a record puts under its key.
pub open spec fn record_held(record: RecordModel) -> ValueModel {
    match record {
        RecordModel::Put { value, seq, .. } => (Some(value), seq),
        RecordModel::Delete { seq, .. } => (None, seq),
    }
}

/// The engine after the write that `record` describes. The write keeps the
/// sequence number of the record, and the next sequence number that is
/// given out lies behind it.
pub open spec fn apply_model(s: StoreModel, max: int, record: RecordModel) -> StoreModel {
    let seq = seq_of(record_held(record));
    let written = write_model(s, max, record_key(record), record_held(record));
    StoreModel {
        next_seq: if seq >= s.next_seq {
            next_after(seq)
        } else {
            s.next_seq
        },
        ..written
    }
}

/// The engine after the writes that `records` describe, in their order.
pub open spec fn replay_model(s: StoreModel, max: int, records: Seq<RecordModel>) -> StoreModel
    decreases records.len(),
{
    if records.len() == 0 {
        s
    } else {
        apply_model(replay_model(s, max, records.drop_last()), max, records.last())
    }
}

/// Of two versions of a key, of which `later` was found in a later place, the
/// one with the larger sequence number, and `later` where the numbers are
/// equal.
pub open spec fn newer_version(earlier: Option<ValueModel>, later: Option<ValueModel>) -> Option<
    ValueModel,
> {
    match later {
        None => earlier,
        Some(found) => match earlier {
            Some(best) => if seq_of(best) > seq_of(found) {
                Some(best)
            } else {
                Some(found)
            },
            None => Some(found),
        },
    }
}

/// What the memory tables that wait to be flushed hold under `key`: of what
/// they hold the version with the largest sequence number, and of several
/// with that number the one of the table that was set aside last.
pub open spec fn sealed_lookup(sealed: Seq<(u64, Seq<EntryPair>)>, key: Seq<u8>) -> Option<
    ValueModel,
>
    decreases sealed.len(),
{
    if sealed.len() == 0 {
        None
    } else {
        newer_version(
            sealed_lookup(sealed.drop_last(), key),
            table_get(as_table(sealed.last().1), key),
        )
    }
}

/// What a table on disk says under a key.
pub open spec fn entry_held(entry: EntryModel) -> ValueModel {
    (entry.value, entry.seq)
}

/// The version of `key` that a read goes by: that of the memory table that
/// takes the writes; where it has none, the newest of the memory tables that
/// wait to be flushed; where they have none, that of the tables on disk.
pub open spec fn version_model(s: StoreModel, key: Seq<u8>) -> Option<ValueModel> {
    match table_get(as_table(s.active), key) {
        Some(held) => Some(held),
        None => match sealed_lookup(s.sealed, key) {
            Some(held) => Some(held),
            None => match tree_lookup(s.levels, key) {
                Some(entry) => Some(entry_held(entry)),
                None => None,
            },
        },
    }
}

/// What a read of `key` gives: the value of the version that the read goes
/// by, and nothing where there is no version or where it marks a deletion.
pub open spec fn read_model(s: StoreModel, key: Seq<u8>) -> Option<Seq<u8>> {
    match version_model(s, key) {
        Some((Some(value), _)) => Some(value),
        _ => None,
    }
}

/// The memory tables that wait to be flushed, without those with the
/// identifier `id`.
pub open spec fn without_id(sealed: Seq<(u64, Seq<EntryPair>)>, id: u64) -> Seq<
    (u64, Seq<EntryPair>),
>
    decreases sealed.len(),
{
    if sealed.len() == 0 {
        Seq::empty()
    } else if sealed.first().0 == id {
        without_id(sealed.drop_first(), id)
    } else {
        seq![sealed.first()] + without_id(sealed.drop_first(), id)
    }
}

/// The engine after it was told that the memory table with the identifier
/// `id` was flushed, where `bytes` are those of the table that was written:
/// the table becomes a table of the first level, and the memory table is
/// dropped.
pub open spec fn flushed_model(s: StoreModel, id: u64, bytes: Seq<u8>) -> StoreModel {
    StoreModel {
        sealed: without_id(s.sealed, id),
        levels: add_to_first_level(s.levels, bytes),
        ..s
    }
}

/// The text that bytes are handed out as, where they are UTF-8.
pub open spec fn text_model(bytes: Option<Seq<u8>>) -> Result<Option<Seq<char>>, KvError> {
    match bytes {
        None => Ok(None),
        Some(bytes) => if valid_utf8(bytes) {
            Ok(Some(decode_utf8(bytes)))
        } else {
            Err(KvError::InvalidUtf8)
        },
    }
}

/// The entries of memory tables, each table with its identifier.
pub open spec fn sealed_model<const MAX_SIZE: usize>(
    tables: Seq<(u64, BTreeMemTable<MAX_SIZE>)>,
) -> Seq<(u64, Seq<EntryPair>)> {
    tables.map_values(|table: (u64, BTreeMemTable<MAX_SIZE>)| (table.0, table.1.entries()))
}

/// The engine of the store. `MAX_SIZE` is the number of bytes that a memory
/// table counts at most before it is replaced.
pub struct KvStore<const MAX_SIZE: usize> {
    store: BTreeMemTable<MAX_SIZE>,
    flushable_tables: Vec<(u64, BTreeMemTable<MAX_SIZE>)>,
    sequence_number_counter: u64,
    lsm_manager: LsmManager,
    flush_pending: bool,
}

impl<const MAX_SIZE: usize> View for KvStore<MAX_SIZE> {
    type V = StoreModel;

    /// What the engine holds.
    closed spec fn view(&self) -> StoreModel {
        StoreModel {
            active: self.store.entries(),
            sealed: sealed_model(self.flushable_tables@),
            next_seq: self.sequence_number_counter,
            levels: self.lsm_manager@,
            flush_pending: self.flush_pending,
        }
    }
}

/// A copy of what a lookup found.
fn held_copy(found: LookupResult) -> (held: Option<MemTableValue>)
    ensures
        match held {
            Some(before) => Some(value_model(before)),
            None => None,
        } == lookup_model(found),
{
    match found {
        LookupResult::NotFound => None,
        LookupResult::Deleted(seq_number) => Some((None, seq_number)),
        LookupResult::Found((value, seq_number)) => Some((Some(to_owned_bytes(value)), seq_number)),
    }
}

/// Hands bytes out as text.
fn to_text(bytes: &[u8]) -> (r: Result<Option<String>, KvError>)
    ensures
        match text_model(Some(bytes@)) {
            Ok(text) => r matches Ok(Some(s)) && text == Some(s@),
            Err(e) => r matches Err(err) && err == e,
        },
{
    match string_from_utf8(to_owned_bytes(bytes)) {
        Some(text) => Ok(Some(text)),
        None => Err(KvError::InvalidUtf8),
    }
}

impl<const MAX_SIZE: usize> KvStore<MAX_SIZE> {
    /// An engine that holds nothing. The first write gets the sequence
    /// number 0.
    pub fn new() -> (store: Self)
        ensures
            store@ == (StoreModel {
                active: Seq::empty(),
                sealed: Seq::empty(),
                next_seq: 0,
                levels: Seq::empty(),
                flush_pending: false,
            }),
    {
        let store = KvStore {
            store: BTreeMemTable::new(),
            flushable_tables: Vec::new(),
            sequence_number_counter: 0,
            lsm_manager: LsmManager::new(),
            flush_pending: false,
        };
        assert(store@.sealed =~= Seq::<(u64, Seq<EntryPair>)>::empty());
        store
    }

    /// The memory table that takes the writes.
    pub fn active_table(&self) -> (table: &BTreeMemTable<MAX_SIZE>)
        ensures
            table.entries() == self@.active,
    {
        &self.store
    }

    /// The memory tables that wait to be flushed, each with its identifier.
    pub fn sealed_tables(&self) -> (tables: &Vec<(u64, BTreeMemTable<MAX_SIZE>)>)
        ensures
            sealed_model(tables@) == self@.sealed,
    {
        &self.flushable_tables
    }

    /// Puts `table` in the place of the memory table that takes the writes.
    pub fn replace_active(&mut self, table: BTreeMemTable<MAX_SIZE>)
        ensures
            final(self)@ == (StoreModel { active: table.entries(), ..old(self)@ }),
    {
        self.store = table;
    }

    /// Sets `table` aside to be flushed, under the identifier `id`.
    pub fn seal_table(&mut self, id: u64, table: BTreeMemTable<MAX_SIZE>)
        ensures
            final(self)@ == (StoreModel {
                sealed: old(self)@.sealed.push((id, table.entries())),
                ..old(self)@
            }),
    {
        self.flushable_tables.push((id, table));
        assert(self@.sealed =~= old(self)@.sealed.push((id, table.entries())));
    }

    /// Gives out the next sequence number.
    pub fn get_next_sequence_number(&mut self) -> (seq: u64)
        ensures
            seq == old(self)@.next_seq,
            final(self)@ == (StoreModel { next_seq: next_after(seq), ..old(self)@ }),
    {
        let seq: u64 = self.sequence_number_counter;
        self.sequence_number_counter = seq.wrapping_add(1);
        seq
    }

    /// Sets the memory table aside, under the identifier `seq_number`, where
    /// it has no room for `needed` bytes more, and puts an empty one in its
    /// place.
    fn make_room(&mut self, needed: usize, seq_number: u64) -> (rotated: bool)
        ensures
            rotated == !has_room(total_len(old(self)@.active), needed as int, MAX_SIZE as int),
            final(self)@ == if rotated {
                StoreModel {
                    active: Seq::empty(),
                    sealed: old(self)@.sealed.push((seq_number, old(self)@.active)),
                    flush_pending: true,
                    ..old(self)@
                }
            } else {
                old(self)@
            },
            final(self).store.used_bytes() == total_len(final(self)@.active),
            final(self).store.used_bytes() + needed <= usize::MAX,
    {
        let rotated: bool = !self.store.has_capacity(needed);
        if rotated {
            let mut old_table = BTreeMemTable::new();
            core::mem::swap(&mut self.store, &mut old_table);
            let ghost before = self.flushable_tables@;
            self.flushable_tables.push((seq_number, old_table));
            self.flush_pending = true;
            assert(sealed_model(self.flushable_tables@) =~= sealed_model(before).push(
                (seq_number, old_table.entries()),
            ));
        }
        rotated
    }

    /// Moves the count of sequence numbers behind `seq_number`, where it is
    /// not behind it yet.
    fn advance_counter(&mut self, seq_number: u64)
        ensures
            final(self)@ == (StoreModel {
                next_seq: if seq_number >= old(self)@.next_seq {
                    next_after(seq_number)
                } else {
                    old(self)@.next_seq
                },
                ..old(self)@
            }),
    {
        if seq_number >= self.sequence_number_counter {
            self.sequence_number_counter = seq_number.wrapping_add(1);
        }
    }

    /// Takes the write of `value` under `key` with the sequence number
    /// `seq_number` into the memory table. A key has at least one byte.
    pub fn apply_put(&mut self, key: &[u8], value: &[u8], seq_number: u64)
        requires
            key@.len() >= 1,
            encoded_len(key@, value@) <= usize::MAX,
        ensures
            final(self)@ == apply_model(
                old(self)@,
                MAX_SIZE as int,
                RecordModel::Put { key: key@, value: value@, seq: seq_number },
            ),
    {
        let needed: usize = BTreeMemTable::<MAX_SIZE>::encoded_len(key, value);
        self.make_room(needed, seq_number);
        self.store.insert(key, value, seq_number);
        self.advance_counter(seq_number);
    }

    /// Takes the deletion of `key` with the sequence number `seq_number` into
    /// the memory table, and gives what the memory table that took the writes
    /// held under the key before the call, also where that table was full
    /// and was set aside. A key has at least one byte.
    pub fn apply_delete(&mut self, key: &[u8], seq_number: u64) -> (previous: Option<MemTableValue>)
        requires
            key@.len() >= 1,
            encoded_len(key@, Seq::empty()) <= usize::MAX,
        ensures
            final(self)@ == apply_model(
                old(self)@,
                MAX_SIZE as int,
                RecordModel::Delete { key: key@, seq: seq_number },
            ),
            match previous {
                Some(before) => Some(value_model(before)),
                None => None,
            } == table_get(as_table(old(self)@.active), key@),
    {
        let empty: Vec<u8> = Vec::new();
        let needed: usize = BTreeMemTable::<MAX_SIZE>::encoded_len(key, empty.as_slice());
        let rotated = self.make_room(needed, seq_number);
        // after a rotation, what was held is in the table that was set aside
        let set_aside: Option<MemTableValue> = if rotated {
            proof {
                let sealed = sealed_model(self.flushable_tables@);
                assert(sealed == old(self)@.sealed.push((seq_number, old(self)@.active)));
                assert(sealed.len() == self.flushable_tables@.len());
                assert(sealed.last() == (
                    self.flushable_tables@.last().0,
                    self.flushable_tables@.last().1.entries(),
                ));
            }
            let last: usize = self.flushable_tables.len() - 1;
            held_copy(self.flushable_tables[last].1.get(key))
        } else {
            None
        };
        let replaced = self.store.delete(key, seq_number);
        self.advance_counter(seq_number);
        if rotated {
            set_aside
        } else {
            replaced
        }
    }

    /// Takes the write that `command` describes into the memory table, with
    /// the sequence number that the record has. This is the write path for a
    /// record after it was written to the log, and for a record that is read
    /// back from the log.
    pub fn apply(&mut self, command: &LogCommand)
        requires
            record_key(command@).len() >= 1,
            held_len(record_key(command@), record_held(command@)) <= usize::MAX,
        ensures
            final(self)@ == apply_model(old(self)@, MAX_SIZE as int, command@),
    {
        match command {
            LogCommand::Put { key, value, seq_number } => {
                self.apply_put(key.as_str().as_bytes(), value.as_str().as_bytes(), *seq_number);
            },
            LogCommand::Delete { key, seq_number } => {
                self.apply_delete(key.as_str().as_bytes(), *seq_number);
            },
        }
    }

    /// Takes the writes that `commands` describe, in their order, each with
    /// the sequence number that its record has.
    pub fn replay(&mut self, commands: &Vec<LogCommand>)
        requires
            forall|i: int|
                0 <= i < commands@.len() ==> record_key(#[trigger] commands@[i]@).len() >= 1,
            forall|i: int|
                0 <= i < commands@.len() ==> held_len(
                    record_key(#[trigger] commands@[i]@),
                    record_held(commands@[i]@),
                ) <= usize::MAX,
        ensures
            final(self)@ == replay_model(
                old(self)@,
                MAX_SIZE as int,
                commands@.map_values(|command: LogCommand| command@),
            ),
    {
        let ghost records = commands@.map_values(|command: LogCommand| command@);
        let mut i: usize = 0;
        assert(records.take(0) =~= Seq::<RecordModel>::empty());
        while i < commands.len()
            invariant
                i <= commands@.len(),
                records == commands@.map_values(|command: LogCommand| command@),
                forall|j: int|
                    0 <= j < commands@.len() ==> record_key(#[trigger] commands@[j]@).len() >= 1,
                forall|j: int|
                    0 <= j < commands@.len() ==> held_len(
                        record_key(#[trigger] commands@[j]@),
                        record_held(commands@[j]@),
                    ) <= usize::MAX,
                self@ == replay_model(old(self)@, MAX_SIZE as int, records.take(i as int)),
            decreases commands@.len() - i,
        {
            proof {
                assert(records.take(i as int + 1).drop_last() =~= records.take(i as int));
                assert(records.take(i as int + 1).last() == commands@[i as int]@);
            }
            self.apply(&commands[i]);
            i = i + 1;
        }
        assert(records.take(i as int) =~= records);
    }

    /// Writes `value` under `key`, and gives the sequence number of the
    /// write. A key has at least one byte.
    pub fn put_value(&mut self, key: &str, value: &str) -> (seq_number: u64)
        requires
            encode_utf8(key@).len() >= 1,
            encoded_len(encode_utf8(key@), encode_utf8(value@)) <= usize::MAX,
        ensures
            seq_number == old(self)@.next_seq,
            final(self)@ == apply_model(
                old(self)@,
                MAX_SIZE as int,
                RecordModel::Put {
                    key: encode_utf8(key@),
                    value: encode_utf8(value@),
                    seq: seq_number,
                },
            ),
    {
        let seq_number: u64 = self.get_next_sequence_number();
        self.apply_put(key.as_bytes(), value.as_bytes(), seq_number);
        seq_number
    }

    /// Deletes `key`, and gives the sequence number of the deletion. Where
    /// the memory table that takes the writes held a value under the key
    /// before the call, the key and that value are given too, as text. A key has at least one
    /// byte.
    pub fn delete_value(&mut self, key: &str) -> (r: Result<
        (Option<(String, String)>, u64),
        KvError,
    >)
        requires
            encode_utf8(key@).len() >= 1,
            encoded_len(encode_utf8(key@), Seq::empty()) <= usize::MAX,
        ensures
            final(self)@ == apply_model(
                old(self)@,
                MAX_SIZE as int,
                RecordModel::Delete { key: encode_utf8(key@), seq: old(self)@.next_seq },
            ),
            match table_get(as_table(old(self)@.active), encode_utf8(key@)) {
                Some((Some(value), _)) => if valid_utf8(value) {
                    r matches Ok((Some(pair), seq)) && seq == old(self)@.next_seq && pair.0@
                        == key@ && pair.1@ == decode_utf8(value)
                } else {
                    r matches Err(e) && e == KvError::InvalidUtf8
                },
                _ => r matches Ok((None, seq)) && seq == old(self)@.next_seq,
            },
    {
        let seq_number: u64 = self.get_next_sequence_number();
        let previous = self.apply_delete(key.as_bytes(), seq_number);
        match previous {
            Some((Some(value), _)) => match string_from_utf8(value) {
                Some(text) => Ok((Some((key.to_owned(), text)), seq_number)),
                None => Err(KvError::InvalidUtf8),
            },
            _ => Ok((None, seq_number)),
        }
    }

    /// What a flush worker is to be asked, if anything: to flush all, where a
    /// memory table was set aside since this was last called.
    pub fn take_flush_command(&mut self) -> (command: Option<FlushCommand>)
        ensures
            final(self)@ == (StoreModel { flush_pending: false, ..old(self)@ }),
            command == if old(self)@.flush_pending {
                Some(FlushCommand::FlushAll)
            } else {
                None
            },
    {
        if self.flush_pending {
            self.flush_pending = false;
            Some(FlushCommand::FlushAll)
        } else {
            None
        }
    }

    /// The version of `key` that the memory tables that wait to be flushed
    /// hold: the one with the largest sequence number.
    fn get_sealed(&self, key: &[u8]) -> (result: LookupResult<'_>)
        ensures
            lookup_model(result) == sealed_lookup(self@.sealed, key@),
    {
        let ghost sealed = self@.sealed;
        let mut best: LookupResult<'_> = LookupResult::NotFound;
        let mut i: usize = 0;
        assert(sealed.take(0) =~= Seq::<(u64, Seq<EntryPair>)>::empty());
        while i < self.flushable_tables.len()
            invariant
                i <= self.flushable_tables@.len(),
                sealed == sealed_model(self.flushable_tables@),
                lookup_model(best) == sealed_lookup(sealed.take(i as int), key@),
            decreases self.flushable_tables@.len() - i,
        {
            let table = &self.flushable_tables[i].1;
            proof {
                assert(sealed.take(i as int + 1).drop_last() =~= sealed.take(i as int));
                assert(sealed.take(i as int + 1).last() == (
                    self.flushable_tables@[i as int].0,
                    table.entries(),
                ));
            }
            let found = table.get(key);
            let found_seq: Option<u64> = match &found {
                LookupResult::NotFound => None,
                LookupResult::Deleted(seq) => Some(*seq),
                LookupResult::Found((_, seq)) => Some(*seq),
            };
            if let Some(seq) = found_seq {
                let keep: bool = match &best {
                    LookupResult::NotFound => false,
                    LookupResult::Deleted(best_seq) => *best_seq > seq,
                    LookupResult::Found((_, best_seq)) => *best_seq > seq,
                };
                if !keep {
                    best = found;
                }
            }
            i = i + 1;
        }
        assert(sealed.take(i as int) =~= sealed);
        best
    }

    /// Reads `key`: the bytes of the value that the store holds under it, if
    /// it holds one. The memory table that takes the writes is asked first,
    /// then the memory tables that wait to be flushed, then the tables that
    /// were flushed. A version that marks a deletion hides what is older.
    pub fn get(&self, key: &[u8]) -> (value: Option<&[u8]>)
        ensures
            match read_model(self@, key@) {
                Some(bytes) => value matches Some(found) && found@ == bytes,
                None => value is None,
            },
    {
        match self.store.get(key) {
            LookupResult::Found((value, _)) => {
                return Some(value);
            },
            LookupResult::Deleted(_) => {
                return None;
            },
            LookupResult::NotFound => {},
        }
        match self.get_sealed(key) {
            LookupResult::Found((value, _)) => {
                return Some(value);
            },
            LookupResult::Deleted(_) => {
                return None;
            },
            LookupResult::NotFound => {},
        }
        match self.lsm_manager.get_value(key) {
            Some(entry) => if entry.tombstone {
                None
            } else {
                Some(entry.value)
            },
            None => None,
        }
    }

    /// Reads `key`, and gives the value as text.
    pub fn get_value(&self, key: &str) -> (r: Result<Option<String>, KvError>)
        ensures
            match text_model(read_model(self@, encode_utf8(key@))) {
                Ok(Some(text)) => r matches Ok(Some(s)) && s@ == text,
                Ok(None) => r matches Ok(None),
                Err(e) => r matches Err(err) && err == e,
            },
    {
        match self.get(key.as_bytes()) {
            Some(value) => to_text(value),
            None => Ok(None),
        }
    }

    /// The keys that the memory table that takes the writes holds a value
    /// under, each with its value, as text and in the order of the keys.
    /// What the other layers hold is left out.
    pub fn get_all(&self) -> (r: Result<Vec<(String, String)>, KvError>)
        ensures
            match r {
                Ok(pairs) => {
                    &&& pairs@.len() == live_pairs(self@.active).len()
                    &&& forall|i: int|
                        0 <= i < pairs@.len() ==> {
                            &&& valid_utf8(live_pairs(self@.active)[i].0)
                            &&& valid_utf8(live_pairs(self@.active)[i].1)
                            &&& (#[trigger] pairs@[i]).0@ == decode_utf8(
                                live_pairs(self@.active)[i].0,
                            )
                            &&& pairs@[i].1@ == decode_utf8(live_pairs(self@.active)[i].1)
                        }
                },
                Err(e) => e == KvError::InvalidUtf8 && exists|i: int|
                    0 <= i < live_pairs(self@.active).len() && !(valid_utf8(
                        (#[trigger] live_pairs(self@.active)[i]).0,
                    ) && valid_utf8(live_pairs(self@.active)[i].1)),
            },
    {
        let all = self.store.get_all();
        let ghost live = live_pairs(self@.active);
        let mut pairs: Vec<(String, String)> = Vec::new();
        let mut i: usize = 0;
        while i < all.len()
            invariant
                i <= all@.len(),
                live == live_pairs(self@.active),
                all@.map_values(|pair: (Vec<u8>, Vec<u8>)| (pair.0@, pair.1@)) == live,
                pairs@.len() == i,
                forall|j: int| 0 <= j < i ==> valid_utf8((#[trigger] live[j]).0),
                forall|j: int| 0 <= j < i ==> valid_utf8((#[trigger] live[j]).1),
                forall|j: int| 0 <= j < i ==> (#[trigger] pairs@[j]).0@ == decode_utf8(live[j].0),
                forall|j: int| 0 <= j < i ==> (#[trigger] pairs@[j]).1@ == decode_utf8(live[j].1),
            decreases all@.len() - i,
        {
            assert(live[i as int] == (all@[i as int].0@, all@[i as int].1@));
            let key_text = string_from_utf8(to_owned_bytes(all[i].0.as_slice()));
            let value_text = string_from_utf8(to_owned_bytes(all[i].1.as_slice()));
            let key_text = match key_text {
                Some(text) => text,
                None => {
                    return Err(KvError::InvalidUtf8);
                },
            };
            let value_text = match value_text {
                Some(text) => text,
                None => {
                    return Err(KvError::InvalidUtf8);
                },
            };
            pairs.push((key_text, value_text));
            i = i + 1;
        }
        assert(all@.len() == live.len());
        Ok(pairs)
    }

    /// Flushes every memory table that waits to be flushed, and gives the
    /// results in the order of the tables. The tables stay where they are
    /// until the engine is told, for each, how its flush ended.
    pub fn flush_all(&self) -> (results: Vec<FlushResult>)
        ensures
            results@.len() == self@.sealed.len(),
            forall|i: int|
                0 <= i < results@.len() ==> is_flush_of(
                    #[trigger] results@[i],
                    self@.sealed[i].0,
                    self@.sealed[i].1,
                ),
            forall|i: int|
                0 <= i < results@.len() ==> ((#[trigger] results@[i]) matches Ok(flushed) ==> (
                keys_have_bytes(self@.sealed[i].1) ==> holds_entries(
                    flushed.table.bytes(),
                    self@.sealed[i].1,
                ))),
    {
        flush_all(&self.flushable_tables)
    }

    /// Takes the table with the identifier `id` out of those that wait to be
    /// flushed.
    fn remove_sealed(&mut self, id: u64)
        ensures
            final(self)@ == (StoreModel {
                sealed: without_id(old(self)@.sealed, id),
                ..old(self)@
            }),
    {
        let ghost sealed = self@.sealed;
        let mut i: usize = 0;
        assert(sealed.skip(0) =~= sealed);
        assert(sealed.take(0) + without_id(sealed, id) =~= without_id(sealed, id));
        while i < self.flushable_tables.len()
            invariant
                i <= self.flushable_tables@.len(),
                self@ == (StoreModel {
                    sealed: sealed_model(self.flushable_tables@),
                    ..old(self)@
                }),
                without_id(old(self)@.sealed, id) == sealed_model(self.flushable_tables@).take(
                    i as int,
                ) + without_id(sealed_model(self.flushable_tables@).skip(i as int), id),
            decreases self.flushable_tables@.len() - i,
        {
            let ghost now = sealed_model(self.flushable_tables@);
            proof {
                assert(now.skip(i as int).drop_first() =~= now.skip(i as int + 1));
                assert(now.skip(i as int).first() == now[i as int]);
            }
            if self.flushable_tables[i].0 == id {
                let removed = self.flushable_tables.remove(i);
                proof {
                    let after = sealed_model(self.flushable_tables@);
                    assert(after =~= now.remove(i as int));
                    assert(after.take(i as int) =~= now.take(i as int));
                    assert(after.skip(i as int) =~= now.skip(i as int + 1));
                }
            } else {
                proof {
                    assert(now.take(i as int + 1) =~= now.take(i as int).push(now[i as int]));
                    assert(now.take(i as int) + (seq![now[i as int]] + without_id(
                        now.skip(i as int + 1),
                        id,
                    )) =~= now.take(i as int + 1) + without_id(now.skip(i as int + 1), id));
                }
                i = i + 1;
            }
        }
        proof {
            let now = sealed_model(self.flushable_tables@);
            assert(now.take(i as int) =~= now);
            assert(now.skip(i as int) =~= Seq::<(u64, Seq<EntryPair>)>::empty());
            assert(now + without_id(now.skip(i as int), id) =~= now);
        }
    }

    /// Takes note of how the flush of one memory table ended. A table that
    /// was written becomes a table of the first level, and the memory table
    /// it was written from is dropped. After a flush that failed the memory
    /// table stays, to be flushed again.
    pub fn on_flush_result<E>(&mut self, result: Result<FlushedTable, E>)
        ensures
            final(self)@ == match result {
                Ok(flushed) => flushed_model(old(self)@, flushed.id, flushed.table.bytes()),
                Err(_) => old(self)@,
            },
    {
        match result {
            Ok(flushed) => {
                self.remove_sealed(flushed.id);
                self.lsm_manager.add_table(flushed.table);
            },
            Err(_) => {},
        }
    }
}

} // verus!
