//! The levels of tables, and the lookup through them.
use crate::persists::sst::sorted_string_table::{sst_lookup, SortedStringTable};
use crate::persists::sst::table_result::{EntryModel, TableResult};
use vstd::prelude::*;

verus! {

/// Of two entries under a key, of which `later` was found in a later table,
/// the one with the larger sequence number, and `later` where the numbers
/// are equal.
pub open spec fn newer_entry(earlier: Option<EntryModel>, later: Option<EntryModel>) -> Option<
    EntryModel,
> {
    match later {
        None => earlier,
        Some(found) => match earlier {
            Some(best) => if best.seq > found.seq {
                Some(best)
            } else {
                Some(found)
            },
            None => Some(found),
        },
    }
}

/// What a lookup of `key` in the tables of one level gives: of the entries
/// that the tables have under the key the one with the largest sequence
/// number, and of several with that number the one of the last table.
pub open spec fn level_lookup(tables: Seq<Seq<u8>>, key: Seq<u8>) -> Option<EntryModel>
    decreases tables.len(),
{
    if tables.len() == 0 {
        None
    } else {
        newer_entry(level_lookup(tables.drop_last(), key), sst_lookup(tables.last(), key))
    }
}

/// What a lookup of `key` in the levels gives: what the first level that has
/// the key gives.
pub open spec fn tree_lookup(levels: Seq<Seq<Seq<u8>>>, key: Seq<u8>) -> Option<EntryModel>
    decreases levels.len(),
{
    if levels.len() == 0 {
        None
    } else {
        match level_lookup(levels.first(), key) {
            Some(found) => Some(found),
            None => tree_lookup(levels.drop_first(), key),
        }
    }
}

/// What a level gives for a key is what one of its tables gives, and none of
/// its tables gives an entry with a larger sequence number. It gives nothing
/// only where none of its tables gives anything.
pub proof fn lemma_level_lookup_highest(tables: Seq<Seq<u8>>, key: Seq<u8>)
    ensures
        level_lookup(tables, key) matches Some(best) ==> {
            &&& exists|i: int| 0 <= i < tables.len() && sst_lookup(#[trigger] tables[i], key) == Some(best)
            &&& forall|i: int|
                0 <= i < tables.len() ==> (sst_lookup(#[trigger] tables[i], key) matches Some(found)
                    ==> best.seq >= found.seq)
        },
        level_lookup(tables, key) is None ==> forall|i: int|
            0 <= i < tables.len() ==> sst_lookup(#[trigger] tables[i], key) is None,
    decreases tables.len(),
{
    if tables.len() > 0 {
        let front = tables.drop_last();
        lemma_level_lookup_highest(front, key);
        assert forall|i: int| 0 <= i < front.len() implies #[trigger] front[i] == tables[i] by {}
        match level_lookup(tables, key) {
            Some(best) => {
                if sst_lookup(tables.last(), key) == Some(best) {
                    assert(sst_lookup(tables[tables.len() - 1], key) == Some(best));
                } else {
                    let i = choose|i: int|
                        0 <= i < front.len() && sst_lookup(#[trigger] front[i], key) == Some(best);
                    assert(sst_lookup(tables[i], key) == Some(best));
                }
                assert forall|i: int| 0 <= i < tables.len() implies (sst_lookup(
                    #[trigger] tables[i],
                    key,
                ) matches Some(found) ==> best.seq >= found.seq) by {
                    if i < front.len() {
                        assert(front[i] == tables[i]);
                    }
                }
            },
            None => {
                assert forall|i: int| 0 <= i < tables.len() implies sst_lookup(
                    #[trigger] tables[i],
                    key,
                ) is None by {
                    if i < front.len() {
                        assert(front[i] == tables[i]);
                    }
                }
            },
        }
    }
}

/// One level of the tree: tables whose key ranges may overlap.
pub struct TreeLevel {
    tables: Vec<SortedStringTable>,
}

impl View for TreeLevel {
    type V = Seq<Seq<u8>>;

    /// The bytes of each table of the level.
    closed spec fn view(&self) -> Seq<Seq<u8>> {
        self.tables@.map_values(|table: SortedStringTable| table.bytes())
    }
}

impl TreeLevel {
    /// A level of the tables `tables`.
    pub fn new(tables: Vec<SortedStringTable>) -> (level: Self)
        ensures
            level@ == tables@.map_values(|table: SortedStringTable| table.bytes()),
    {
        TreeLevel { tables }
    }

    /// Adds a table to the level, behind those it has.
    pub fn add(&mut self, table: SortedStringTable)
        ensures
            final(self)@ == old(self)@.push(table.bytes()),
    {
        self.tables.push(table);
        assert(self@ =~= old(self)@.push(table.bytes()));
    }

    /// The number of tables in the level.
    pub fn len(&self) -> (n: usize)
        ensures
            n == self@.len(),
    {
        self.tables.len()
    }

    /// Looks `key` up in every table of the level, and gives the entry with
    /// the largest sequence number.
    pub fn get_value(&self, key: &[u8]) -> (r: Option<TableResult<'_>>)
        ensures
            match level_lookup(self@, key@) {
                None => r is None,
                Some(e) => r matches Some(found) && found@ == e,
            },
    {
        let mut best: Option<TableResult<'_>> = None;
        let mut i: usize = 0;
        let ghost tables = self@;
        assert(tables.take(0) =~= Seq::<Seq<u8>>::empty());
        while i < self.tables.len()
            invariant
                i <= self.tables@.len(),
                tables == self@,
                match level_lookup(tables.take(i as int), key@) {
                    None => best is None,
                    Some(e) => best matches Some(found) && found@ == e,
                },
            decreases self.tables@.len() - i,
        {
            proof {
                assert(tables.take(i as int + 1).drop_last() =~= tables.take(i as int));
                assert(tables.take(i as int + 1).last() == self.tables@[i as int].bytes());
            }
            if let Some(found) = self.tables[i].get(key) {
                let keep: bool = match &best {
                    Some(entry) => entry.sequence_number > found.sequence_number,
                    None => false,
                };
                if !keep {
                    best = Some(found);
                }
            }
            i = i + 1;
        }
        assert(tables.take(i as int) =~= tables);
        best
    }
}

/// The tables on disk, level by level, the newest level first.
pub struct LsmManager {
    tree: Vec<TreeLevel>,
}

impl View for LsmManager {
    type V = Seq<Seq<Seq<u8>>>;

    /// The bytes of each table of each level.
    closed spec fn view(&self) -> Seq<Seq<Seq<u8>>> {
        self.tree@.map_values(|level: TreeLevel| level@)
    }
}

/// The levels after a table was added to the first level. Where there was no
/// level, the table makes up the first.
pub open spec fn add_to_first_level(levels: Seq<Seq<Seq<u8>>>, table: Seq<u8>) -> Seq<
    Seq<Seq<u8>>,
> {
    if levels.len() == 0 {
        seq![seq![table]]
    } else {
        levels.update(0, levels[0].push(table))
    }
}

impl LsmManager {
    /// A tree without levels.
    pub fn new() -> (manager: Self)
        ensures
            manager@ == Seq::<Seq<Seq<u8>>>::empty(),
    {
        let manager = LsmManager { tree: Vec::new() };
        assert(manager@ =~= Seq::<Seq<Seq<u8>>>::empty());
        manager
    }

    /// Adds a level behind the levels that the tree has.
    pub fn add_level(&mut self, level: TreeLevel)
        ensures
            final(self)@ == old(self)@.push(level@),
    {
        self.tree.push(level);
        assert(self@ =~= old(self)@.push(level@));
    }

    /// Adds a table to the first level.
    pub fn add_table(&mut self, table: SortedStringTable)
        ensures
            final(self)@ == add_to_first_level(old(self)@, table.bytes()),
    {
        if self.tree.len() == 0 {
            let mut tables: Vec<SortedStringTable> = Vec::new();
            tables.push(table);
            let level = TreeLevel::new(tables);
            assert(level@ =~= seq![table.bytes()]);
            self.tree.push(level);
            assert(self@ =~= add_to_first_level(old(self)@, table.bytes()));
        } else {
            self.tree[0].add(table);
            assert(self@ =~= add_to_first_level(old(self)@, table.bytes()));
        }
    }

    /// Looks `key` up level by level, and gives what the first level that has
    /// the key gives.
    pub fn get_value(&self, key: &[u8]) -> (r: Option<TableResult<'_>>)
        ensures
            match tree_lookup(self@, key@) {
                None => r is None,
                Some(e) => r matches Some(found) && found@ == e,
            },
    {
        let ghost levels = self@;
        let mut i: usize = 0;
        assert(levels.skip(0) =~= levels);
        while i < self.tree.len()
            invariant
                i <= self.tree@.len(),
                levels == self@,
                tree_lookup(levels, key@) == tree_lookup(levels.skip(i as int), key@),
            decreases self.tree@.len() - i,
        {
            proof {
                assert(levels.skip(i as int).drop_first() =~= levels.skip(i as int + 1));
                assert(levels.skip(i as int).first() == self.tree@[i as int]@);
            }
            if let Some(table_result) = self.tree[i].get_value(key) {
                return Some(table_result);
            }
            i = i + 1;
        }
        None
    }
}

} // verus!
