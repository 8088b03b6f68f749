//! One entry of a sorted string table, as a reader hands it out.
use crate::persists::bytes::{key_eq, key_lt, lex_lt};
use vstd::prelude::*;

verus! {

/// What an entry of a table says: a key, a value or the mark of a deletion,
/// and the sequence number of the write that made it.
pub struct EntryModel {
    pub key: Seq<u8>,
    pub value: Option<Seq<u8>>,
    pub seq: u64,
}

/// An entry read from a table. Key and value borrow the table's bytes. An
/// entry that marks a deletion has `tombstone` set, and its value counts for
/// nothing.
#[derive(Debug, Clone, Copy)]
pub struct TableResult<'a> {
    pub key: &'a [u8],
    pub value: &'a [u8],
    pub sequence_number: u64,
    pub tombstone: bool,
}

impl<'a> View for TableResult<'a> {
    type V = EntryModel;

    open spec fn view(&self) -> EntryModel {
        EntryModel {
            key: self.key@,
            value: if self.tombstone {
                None
            } else {
                Some(self.value@)
            },
            seq: self.sequence_number,
        }
    }
}

/// The order in which a merge takes entries: by key ascending, and for one key
/// by sequence number descending, so that the newest version of a key comes
/// first.
pub open spec fn merges_before(a: EntryModel, b: EntryModel) -> bool {
    lex_lt(a.key, b.key) || (a.key == b.key && a.seq > b.seq)
}

impl<'a> TableResult<'a> {
    /// An entry that holds `value` under `key`.
    pub fn new(key: &'a [u8], value: &'a [u8], sequence_number: u64) -> (r: Self)
        ensures
            r@ == (EntryModel { key: key@, value: Some(value@), seq: sequence_number }),
    {
        Self { key, value, sequence_number, tombstone: false }
    }

    /// An entry that marks `key` as deleted.
    pub fn deleted(key: &'a [u8], sequence_number: u64) -> (r: Self)
        ensures
            r@ == (EntryModel { key: key@, value: None, seq: sequence_number }),
            r.value@.len() == 0,
    {
        Self {
            key,
            value: vstd::slice::slice_subrange(key, 0, 0),
            sequence_number,
            tombstone: true,
        }
    }

    /// Whether a merge takes this entry strictly before `other`.
    pub fn merges_before(&self, other: &TableResult) -> (r: bool)
        ensures
            r == merges_before(self@, other@),
    {
        if key_lt(self.key, other.key) {
            true
        } else {
            key_eq(self.key, other.key) && self.sequence_number > other.sequence_number
        }
    }

    /// Whether both entries are the same version of the same key.
    pub fn same_version(&self, other: &TableResult) -> (r: bool)
        ensures
            r == (self@.key == other@.key && self@.seq == other@.seq),
    {
        key_eq(self.key, other.key) && self.sequence_number == other.sequence_number
    }
}

} // verus!
