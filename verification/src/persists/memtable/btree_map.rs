//! A memory table that keeps its entries in the order of their keys.
use crate::persists::bytes::{
    key_eq, key_lt, lemma_lex_lt_total, lemma_lex_lt_transitive, lex_lt, to_owned_bytes,
};
use crate::persists::memtable::memtable_trait::{
    as_table, encoded_len, entries_model, entry_model, has_key, has_room, held_len, index_of,
    keys_sorted, live_pairs, lower_bound, put_entry, table_get, total_len, value_model, EntryPair,
    LookupResult, MemTable, MemTableEntry, MemTableValue, TableModel, ValueModel,
};
use crate::persists::sst::sst_table_block::HEADER_SIZE;
use vstd::prelude::*;

verus! {

/// In sorted entries every key stands at one place only.
pub proof fn lemma_sorted_keys_unique(entries: Seq<EntryPair>, i: int)
    requires
        keys_sorted(entries),
        0 <= i < entries.len(),
    ensures
        has_key(entries, entries[i].0),
        index_of(entries, entries[i].0) == i,
        table_get(as_table(entries), entries[i].0) == Some(entries[i].1),
{
    let key = entries[i].0;
    let j = index_of(entries, key);
    if j < i {
        lemma_lex_lt_total(entries[j].0, entries[i].0);
    } else if i < j {
        lemma_lex_lt_total(entries[i].0, entries[j].0);
    }
}

/// The bytes counted for entries are not negative, and not fewer than those
/// counted for one of them.
pub proof fn lemma_total_len_bounds(entries: Seq<EntryPair>, i: int)
    requires
        0 <= i < entries.len(),
    ensures
        0 <= held_len(entries[i].0, entries[i].1) <= total_len(entries),
    decreases entries.len(),
{
    lemma_total_len_not_negative(entries.drop_last());
    if i < entries.len() - 1 {
        lemma_total_len_bounds(entries.drop_last(), i);
    }
}

/// The bytes counted for entries are not negative.
pub proof fn lemma_total_len_not_negative(entries: Seq<EntryPair>)
    ensures
        0 <= total_len(entries),
    decreases entries.len(),
{
    if entries.len() > 0 {
        lemma_total_len_not_negative(entries.drop_last());
    }
}

/// An entry more counts its bytes more, wherever it is put.
pub proof fn lemma_total_len_insert(entries: Seq<EntryPair>, at: int, entry: EntryPair)
    requires
        0 <= at <= entries.len(),
    ensures
        total_len(entries.insert(at, entry)) == total_len(entries) + held_len(entry.0, entry.1),
    decreases entries.len(),
{
    let grown = entries.insert(at, entry);
    if at == entries.len() {
        assert(grown.drop_last() =~= entries);
    } else {
        assert(grown.drop_last() =~= entries.drop_last().insert(at, entry));
        assert(grown.last() == entries.last());
        lemma_total_len_insert(entries.drop_last(), at, entry);
    }
}

/// An entry in place of another counts its bytes in place of the other's.
pub proof fn lemma_total_len_update(entries: Seq<EntryPair>, at: int, entry: EntryPair)
    requires
        0 <= at < entries.len(),
    ensures
        total_len(entries.update(at, entry)) == total_len(entries) - held_len(
            entries[at].0,
            entries[at].1,
        ) + held_len(entry.0, entry.1),
    decreases entries.len(),
{
    let changed = entries.update(at, entry);
    if at == entries.len() - 1 {
        assert(changed.drop_last() =~= entries.drop_last());
    } else {
        assert(changed.drop_last() =~= entries.drop_last().update(at, entry));
        assert(changed.last() == entries.last());
        lemma_total_len_update(entries.drop_last(), at, entry);
    }
}

/// Sorted entries have no entry with `key` where all entries before `at` have
/// smaller keys, and the one at `at`, if there is one, has a larger key.
pub proof fn lemma_key_absent(entries: Seq<EntryPair>, at: int, key: Seq<u8>)
    requires
        keys_sorted(entries),
        0 <= at <= entries.len(),
        forall|j: int| 0 <= j < at ==> lex_lt((#[trigger] entries[j]).0, key),
        at < entries.len() ==> lex_lt(key, entries[at].0),
    ensures
        !has_key(entries, key),
        forall|j: int| at <= j < entries.len() ==> lex_lt(key, (#[trigger] entries[j]).0),
{
    assert forall|j: int| at <= j < entries.len() implies lex_lt(key, (#[trigger] entries[j]).0) by {
        if at < j {
            assert(lex_lt(entries[at].0, entries[j].0));
            lemma_lex_lt_transitive(key, entries[at].0, entries[j].0);
        }
    }
    if has_key(entries, key) {
        let j = index_of(entries, key);
        lemma_lex_lt_total(entries[j].0, key);
    }
}

/// Putting an entry with a new key at its place in sorted entries keeps them
/// sorted, and adds the key to the table they make up.
pub proof fn lemma_insert_entry(entries: Seq<EntryPair>, at: int, entry: EntryPair)
    requires
        keys_sorted(entries),
        0 <= at <= entries.len(),
        forall|j: int| 0 <= j < at ==> lex_lt((#[trigger] entries[j]).0, entry.0),
        forall|j: int| at <= j < entries.len() ==> lex_lt(entry.0, (#[trigger] entries[j]).0),
    ensures
        keys_sorted(entries.insert(at, entry)),
        as_table(entries.insert(at, entry)) == as_table(entries).insert(entry.0, entry.1),
{
    let grown = entries.insert(at, entry);
    assert forall|i: int, j: int| 0 <= i < j < grown.len() implies lex_lt(
        (#[trigger] grown[i]).0,
        (#[trigger] grown[j]).0,
    ) by {
        let before_i = if i < at {
            i
        } else {
            i - 1
        };
        let before_j = if j < at {
            j
        } else {
            j - 1
        };
        if i != at && j != at {
            assert(lex_lt(entries[before_i].0, entries[before_j].0));
        }
    }
    assert forall|key: Seq<u8>| has_key(grown, key) <==> (key == entry.0 || has_key(
        entries,
        key,
    )) by {
        if has_key(grown, key) {
            let i = index_of(grown, key);
            if i < at {
                assert(entries[i].0 == key);
            } else if i > at {
                assert(entries[i - 1].0 == key);
            }
        }
        if key == entry.0 {
            assert(grown[at].0 == key);
        }
        if has_key(entries, key) {
            let i = index_of(entries, key);
            if i < at {
                assert(grown[i].0 == key);
            } else {
                assert(grown[i + 1].0 == key);
            }
        }
    }
    assert forall|key: Seq<u8>| has_key(grown, key) implies #[trigger] as_table(grown)[key]
        == as_table(entries).insert(entry.0, entry.1)[key] by {
        let i = index_of(grown, key);
        lemma_sorted_keys_unique(grown, i);
        if i < at {
            lemma_sorted_keys_unique(entries, i);
            lemma_lex_lt_total(entries[i].0, entry.0);
        } else if i > at {
            lemma_sorted_keys_unique(entries, i - 1);
            lemma_lex_lt_total(entry.0, entries[i - 1].0);
        }
    }
    assert(as_table(grown) =~= as_table(entries).insert(entry.0, entry.1));
}

/// Putting other contents under a key of sorted entries keeps them sorted,
/// and changes what the table they make up holds under that key.
pub proof fn lemma_update_entry(entries: Seq<EntryPair>, at: int, value: ValueModel)
    requires
        keys_sorted(entries),
        0 <= at < entries.len(),
    ensures
        keys_sorted(entries.update(at, (entries[at].0, value))),
        as_table(entries.update(at, (entries[at].0, value))) == as_table(entries).insert(
            entries[at].0,
            value,
        ),
{
    let key = entries[at].0;
    let changed = entries.update(at, (key, value));
    assert forall|i: int, j: int| 0 <= i < j < changed.len() implies lex_lt(
        (#[trigger] changed[i]).0,
        (#[trigger] changed[j]).0,
    ) by {
        assert(lex_lt(entries[i].0, entries[j].0));
    }
    assert forall|k: Seq<u8>| has_key(changed, k) <==> (k == key || has_key(entries, k)) by {
        if has_key(changed, k) {
            let i = index_of(changed, k);
            assert(entries[i].0 == k);
        }
        if k == key {
            assert(changed[at].0 == k);
        }
        if has_key(entries, k) {
            let i = index_of(entries, k);
            assert(changed[i].0 == k);
        }
    }
    assert forall|k: Seq<u8>| has_key(changed, k) implies #[trigger] as_table(changed)[k]
        == as_table(entries).insert(key, value)[k] by {
        let i = index_of(changed, k);
        lemma_sorted_keys_unique(changed, i);
        lemma_sorted_keys_unique(entries, i);
        if i != at {
            lemma_lex_lt_total(entries[i].0, key);
            lemma_lex_lt_total(key, entries[i].0);
            if i < at {
                assert(lex_lt(entries[i].0, entries[at].0));
            } else {
                assert(lex_lt(entries[at].0, entries[i].0));
            }
        }
    }
    assert(as_table(changed) =~= as_table(entries).insert(key, value));
}

/// The place that `lower_bound` gives is the first whose entry has a key that
/// is not smaller.
pub proof fn lemma_lower_bound(entries: Seq<EntryPair>, key: Seq<u8>, at: int)
    requires
        0 <= at <= entries.len(),
        forall|j: int| 0 <= j < at ==> lex_lt((#[trigger] entries[j]).0, key),
        at < entries.len() ==> !lex_lt(entries[at].0, key),
    ensures
        lower_bound(entries, key) == at,
    decreases entries.len(),
{
    if entries.len() > 0 && at > 0 {
        let rest = entries.drop_first();
        assert(lex_lt(entries[0].0, key));
        assert forall|j: int| 0 <= j < at - 1 implies lex_lt((#[trigger] rest[j]).0, key) by {
            assert(rest[j] == entries[j + 1]);
        }
        lemma_lower_bound(rest, key, at - 1);
    }
}

/// Putting something under a key of sorted entries keeps them sorted, puts it
/// into the table that they make up, and counts its bytes in place of those
/// that were counted for the key.
pub proof fn lemma_put_entry(entries: Seq<EntryPair>, key: Seq<u8>, held: ValueModel)
    requires
        keys_sorted(entries),
    ensures
        keys_sorted(put_entry(entries, key, held)),
        as_table(put_entry(entries, key, held)) == as_table(entries).insert(key, held),
        total_len(put_entry(entries, key, held)) == total_len(entries) - (match table_get(
            as_table(entries),
            key,
        ) {
            Some(before) => held_len(key, before),
            None => 0,
        }) + held_len(key, held),
{
    let at = lower_bound(entries, key);
    lemma_lower_bound_is_first(entries, key);
    if at < entries.len() && entries[at].0 == key {
        lemma_sorted_keys_unique(entries, at);
        lemma_update_entry(entries, at, held);
        lemma_total_len_update(entries, at, (key, held));
    } else {
        if at < entries.len() {
            lemma_lex_lt_total(entries[at].0, key);
        }
        lemma_key_absent(entries, at, key);
        lemma_insert_entry(entries, at, (key, held));
        lemma_total_len_insert(entries, at, (key, held));
    }
}

/// Before the place that `lower_bound` gives all keys are smaller, and the
/// key at the place is not.
pub proof fn lemma_lower_bound_is_first(entries: Seq<EntryPair>, key: Seq<u8>)
    ensures
        0 <= lower_bound(entries, key) <= entries.len(),
        forall|j: int| 0 <= j < lower_bound(entries, key) ==> lex_lt((#[trigger] entries[j]).0, key),
        lower_bound(entries, key) < entries.len() ==> !lex_lt(
            entries[lower_bound(entries, key)].0,
            key,
        ),
    decreases entries.len(),
{
    if entries.len() > 0 && lex_lt(entries[0].0, key) {
        let rest = entries.drop_first();
        lemma_lower_bound_is_first(rest, key);
        assert forall|j: int| 0 <= j < lower_bound(entries, key) implies lex_lt(
            (#[trigger] entries[j]).0,
            key,
        ) by {
            if j > 0 {
                assert(rest[j - 1] == entries[j]);
            }
        }
    }
}

/// Every entry of entries after something was put is what was put, or was
/// an entry before.
pub proof fn lemma_put_entry_member(
    entries: Seq<EntryPair>,
    key: Seq<u8>,
    held: ValueModel,
    i: int,
) -> (j: int)
    requires
        0 <= i < put_entry(entries, key, held).len(),
    ensures
        put_entry(entries, key, held)[i] == (key, held) || (0 <= j < entries.len() && entries[j]
            == put_entry(entries, key, held)[i]),
{
    lemma_lower_bound_is_first(entries, key);
    let at = lower_bound(entries, key);
    if at < entries.len() && entries[at].0 == key {
        i
    } else if i < at {
        i
    } else {
        i - 1
    }
}

/// A memory table that counts at most `MAX_SIZE` bytes before it asks to be
/// replaced. Its entries stand in the order of their keys, one for each key.
#[derive(Debug)]
pub struct BTreeMemTable<const MAX_SIZE: usize> {
    data: Vec<MemTableEntry>,
    used_bytes: usize,
}

impl<const MAX_SIZE: usize> View for BTreeMemTable<MAX_SIZE> {
    type V = TableModel;

    /// What the table holds under each key.
    open spec fn view(&self) -> TableModel {
        as_table(self.entries())
    }
}

impl<const MAX_SIZE: usize> BTreeMemTable<MAX_SIZE> {
    /// The entries stand in the order of their keys, and the count of bytes
    /// is that of the entries.
    #[verifier::type_invariant]
    spec fn ordered_and_counted(self) -> bool {
        &&& keys_sorted(entries_model(self.data@))
        &&& self.used_bytes == total_len(entries_model(self.data@))
    }

    /// The entries of the table in the order of their keys.
    pub closed spec fn entries(&self) -> Seq<EntryPair> {
        entries_model(self.data@)
    }

    /// The bytes that the table has counted.
    pub closed spec fn used_bytes(&self) -> int {
        self.used_bytes as int
    }

    /// An empty table.
    pub fn new() -> (table: Self)
        ensures
            table@ == Map::<Seq<u8>, ValueModel>::empty(),
            table.entries() == Seq::<EntryPair>::empty(),
            table.used_bytes() == 0,
    {
        let table = Self { data: Vec::new(), used_bytes: 0 };
        assert(table.entries() =~= Seq::<EntryPair>::empty());
        assert(table@ =~= Map::<Seq<u8>, ValueModel>::empty());
        table
    }

    /// The bytes that a table counts for an entry with this key and value.
    #[inline]
    pub fn encoded_len(key: &[u8], value: &[u8]) -> (n: usize)
        requires
            encoded_len(key@, value@) <= usize::MAX,
        ensures
            n == encoded_len(key@, value@),
    {
        2 * HEADER_SIZE + key.len() + value.len()
    }

    /// The place of the first entry whose key is not smaller than `key`.
    fn position(&self, key: &[u8]) -> (at: usize)
        ensures
            at <= self.entries().len(),
            forall|j: int| 0 <= j < at ==> lex_lt((#[trigger] self.entries()[j]).0, key@),
            forall|j: int|
                at <= j < self.entries().len() ==> !lex_lt((#[trigger] self.entries()[j]).0, key@),
    {
        proof {
            use_type_invariant(self);
        }
        let ghost entries = self.entries();
        let mut low: usize = 0;
        let mut high: usize = self.data.len();
        while low < high
            invariant
                low <= high <= entries.len(),
                entries == entries_model(self.data@),
                keys_sorted(entries),
                forall|j: int| 0 <= j < low ==> lex_lt((#[trigger] entries[j]).0, key@),
                forall|j: int| high <= j < entries.len() ==> !lex_lt((#[trigger] entries[j]).0, key@),
            decreases high - low,
        {
            let middle: usize = low + (high - low) / 2;
            if key_lt(self.data[middle].0.as_slice(), key) {
                proof {
                    assert forall|j: int| 0 <= j < middle + 1 implies lex_lt(
                        (#[trigger] entries[j]).0,
                        key@,
                    ) by {
                        if j < middle {
                            assert(lex_lt(entries[j].0, entries[middle as int].0));
                            lemma_lex_lt_transitive(entries[j].0, entries[middle as int].0, key@);
                        }
                    }
                }
                low = middle + 1;
            } else {
                proof {
                    assert forall|j: int| middle <= j < entries.len() implies !lex_lt(
                        (#[trigger] entries[j]).0,
                        key@,
                    ) by {
                        if middle < j && lex_lt(entries[j].0, key@) {
                            assert(lex_lt(entries[middle as int].0, entries[j].0));
                            lemma_lex_lt_transitive(entries[middle as int].0, entries[j].0, key@);
                        }
                    }
                }
                high = middle;
            }
        }
        low
    }

    /// Puts `held` under `key`, in place of what was there, and gives what
    /// was there.
    fn put(&mut self, key: &[u8], held: MemTableValue) -> (previous: Option<MemTableValue>)
        requires
            old(self).used_bytes() + held_len(key@, value_model(held)) <= usize::MAX,
        ensures
            final(self).entries() == put_entry(old(self).entries(), key@, value_model(held)),
            final(self)@ == old(self)@.insert(key@, value_model(held)),
            final(self).used_bytes() == old(self).used_bytes() - (match table_get(
                old(self)@,
                key@,
            ) {
                Some(before) => held_len(key@, before),
                None => 0,
            }) + held_len(key@, value_model(held)),
            match previous {
                Some(before) => Some(value_model(before)),
                None => None,
            } == table_get(old(self)@, key@),
    {
        proof {
            use_type_invariant(&*self);
        }
        let at: usize = self.position(key);
        let found: bool = at < self.data.len() && key_eq(self.data[at].0.as_slice(), key);
        let held_bytes: usize = 2 * HEADER_SIZE + key.len() + match &held.0 {
            Some(bytes) => bytes.len(),
            None => 0,
        };
        let ghost entries = self.entries();
        let ghost pair = (key@, value_model(held));
        proof {
            lemma_lower_bound(entries, key@, at as int);
        }
        let mut table = Self::new();
        core::mem::swap(self, &mut table);
        let BTreeMemTable { mut data, mut used_bytes } = table;
        let previous: Option<MemTableValue>;
        if found {
            proof {
                lemma_sorted_keys_unique(entries, at as int);
                lemma_total_len_bounds(entries, at as int);
                lemma_update_entry(entries, at as int, pair.1);
                lemma_total_len_update(entries, at as int, pair);
            }
            let before_bytes: usize = 2 * HEADER_SIZE + data[at].0.len() + match &data[at].1.0 {
                Some(bytes) => bytes.len(),
                None => 0,
            };
            used_bytes = used_bytes - before_bytes + held_bytes;
            let mut entry: MemTableEntry = (to_owned_bytes(key), held);
            let ghost before = data@;
            core::mem::swap(&mut data[at], &mut entry);
            previous = Some(entry.1);
            assert(entries_model(data@) =~= entries.update(at as int, pair));
        } else {
            proof {
                if at < entries.len() {
                    lemma_lex_lt_total(entries[at as int].0, key@);
                }
                lemma_key_absent(entries, at as int, key@);
                lemma_insert_entry(entries, at as int, pair);
                lemma_total_len_insert(entries, at as int, pair);
            }
            used_bytes = used_bytes + held_bytes;
            data.insert(at, (to_owned_bytes(key), held));
            previous = None;
            assert(entries_model(data@) =~= entries.insert(at as int, pair));
        }
        *self = BTreeMemTable { data, used_bytes };
        previous
    }

    /// A copy of what is held under a key.
    fn copy_held(held: &MemTableValue) -> (copy: MemTableValue)
        ensures
            value_model(copy) == value_model(*held),
    {
        match &held.0 {
            Some(bytes) => (Some(to_owned_bytes(bytes.as_slice())), held.1),
            None => (None, held.1),
        }
    }

    /// The keys with a value, each with its value, in the order of the keys.
    /// Deleted keys are left out.
    pub fn get_all(&self) -> (pairs: Vec<(Vec<u8>, Vec<u8>)>)
        ensures
            pairs@.map_values(|pair: (Vec<u8>, Vec<u8>)| (pair.0@, pair.1@)) == live_pairs(
                self.entries(),
            ),
    {
        let ghost entries = self.entries();
        let mut pairs: Vec<(Vec<u8>, Vec<u8>)> = Vec::new();
        let mut i: usize = 0;
        assert(entries.take(0) =~= Seq::<EntryPair>::empty());
        while i < self.data.len()
            invariant
                i <= self.data@.len(),
                entries == entries_model(self.data@),
                pairs@.map_values(|pair: (Vec<u8>, Vec<u8>)| (pair.0@, pair.1@)) == live_pairs(
                    entries.take(i as int),
                ),
            decreases self.data@.len() - i,
        {
            let entry = &self.data[i];
            let ghost before = pairs@;
            proof {
                assert(entries.take(i as int + 1).drop_last() =~= entries.take(i as int));
                assert(entries.take(i as int + 1).last() == entry_model(self.data@[i as int]));
            }
            if let Some(value) = &entry.1.0 {
                pairs.push((to_owned_bytes(entry.0.as_slice()), to_owned_bytes(value.as_slice())));
                assert(pairs@.map_values(|pair: (Vec<u8>, Vec<u8>)| (pair.0@, pair.1@))
                    =~= before.map_values(|pair: (Vec<u8>, Vec<u8>)| (pair.0@, pair.1@)).push(
                    (entry.0@, value@),
                ));
            }
            i = i + 1;
        }
        assert(entries.take(i as int) =~= entries);
        pairs
    }

    /// Every key with its value, or with nothing where the key is deleted, in
    /// the order of the keys.
    pub fn iter_all(&self) -> (pairs: Vec<(&[u8], Option<&[u8]>)>)
        ensures
            pairs@.len() == self.entries().len(),
            forall|i: int|
                0 <= i < pairs@.len() ==> {
                    &&& (#[trigger] pairs@[i]).0@ == self.entries()[i].0
                    &&& match pairs@[i].1 {
                        Some(value) => self.entries()[i].1.0 == Some(value@),
                        None => self.entries()[i].1.0 is None,
                    }
                },
    {
        let mut pairs: Vec<(&[u8], Option<&[u8]>)> = Vec::new();
        let mut i: usize = 0;
        while i < self.data.len()
            invariant
                i <= self.data@.len(),
                pairs@.len() == i,
                forall|j: int|
                    0 <= j < i ==> {
                        &&& (#[trigger] pairs@[j]).0@ == entries_model(self.data@)[j].0
                        &&& match pairs@[j].1 {
                            Some(value) => entries_model(self.data@)[j].1.0 == Some(value@),
                            None => entries_model(self.data@)[j].1.0 is None,
                        }
                    },
            decreases self.data@.len() - i,
        {
            let entry = &self.data[i];
            let value: Option<&[u8]> = match &entry.1.0 {
                Some(bytes) => Some(bytes.as_slice()),
                None => None,
            };
            pairs.push((entry.0.as_slice(), value));
            i = i + 1;
        }
        pairs
    }
}

impl<const MAX_SIZE: usize> MemTable for BTreeMemTable<MAX_SIZE> {
    open spec fn table(&self) -> TableModel {
        self@
    }

    open spec fn sorted_entries(&self) -> Seq<EntryPair> {
        self.entries()
    }

    open spec fn used(&self) -> int {
        self.used_bytes()
    }

    open spec fn max_bytes(&self) -> int {
        MAX_SIZE as int
    }

    fn insert(&mut self, key: &[u8], value: &[u8], seq_number: u64) {
        let previous = self.put(key, (Some(to_owned_bytes(value)), seq_number));
    }

    fn get(&self, key: &[u8]) -> (result: LookupResult<'_>) {
        proof {
            use_type_invariant(self);
        }
        let at: usize = self.position(key);
        let ghost entries = self.entries();
        if at < self.data.len() && key_eq(self.data[at].0.as_slice(), key) {
            proof {
                lemma_sorted_keys_unique(entries, at as int);
            }
            match &self.data[at].1 {
                (Some(value), seq_number) => LookupResult::Found((value.as_slice(), *seq_number)),
                (None, seq_number) => LookupResult::Deleted(*seq_number),
            }
        } else {
            proof {
                if at < entries.len() {
                    lemma_lex_lt_total(entries[at as int].0, key@);
                }
                lemma_key_absent(entries, at as int, key@);
            }
            LookupResult::NotFound
        }
    }

    fn delete(&mut self, key: &[u8], seq_number: u64) -> (previous: Option<MemTableValue>) {
        self.put(key, (None, seq_number))
    }

    fn flush(&self) -> (entries: Vec<MemTableEntry>) {
        proof {
            use_type_invariant(self);
        }
        let mut entries: Vec<MemTableEntry> = Vec::new();
        let mut i: usize = 0;
        while i < self.data.len()
            invariant
                i <= self.data@.len(),
                entries@.len() == i,
                forall|j: int| 0 <= j < i ==> entry_model(#[trigger] entries@[j]) == entry_model(
                    self.data@[j],
                ),
            decreases self.data@.len() - i,
        {
            let entry = &self.data[i];
            entries.push((to_owned_bytes(entry.0.as_slice()), Self::copy_held(&entry.1)));
            i = i + 1;
        }
        assert(entries_model(entries@) =~= self.entries());
        entries
    }

    fn bytes_used(&self) -> (n: usize) {
        proof {
            use_type_invariant(self);
        }
        self.used_bytes
    }

    fn has_capacity(&self, value_length: usize) -> (r: bool) {
        proof {
            use_type_invariant(self);
        }
        value_length <= MAX_SIZE && self.used_bytes <= MAX_SIZE - value_length
    }
}

impl<const MAX_SIZE: usize> Default for BTreeMemTable<MAX_SIZE> {
    fn default() -> (table: Self)
        ensures
            table@ == Map::<Seq<u8>, ValueModel>::empty(),
            table.entries() == Seq::<EntryPair>::empty(),
            table.used_bytes() == 0,
    {
        Self::new()
    }
}

/// A table that is filled to its budget exactly still had room for the write
/// that filled it, and has room for nothing more.
pub proof fn lemma_capacity_boundary(used: int, additional: int, max: int, next: int)
    requires
        used + additional == max,
        next > 0,
    ensures
        has_room(used, additional, max),
        !has_room(used + additional, next, max),
{
}

} // verus!
