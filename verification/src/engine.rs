//! The LSM engine: orchestrates put, get, delete and flush across the
//! memtable layers and the immutable tables, newest first, with tombstones
//! shadowing older writes. It works on in-memory table images; persisting
//! an image and replaying a manifest at startup are the caller's side.

use vstd::prelude::*;

use crate::memtable::{
    assoc_get, assoc_put, cost_sum, lemma_assoc_put_sorted, EntrySpec, MemTable,
};
use crate::memtable_set::MemTableSet;
use crate::sst_builder::{flush_memtable_to_sstable, TableId};
use crate::sst_format::{records_of_table, table_good, table_open, SstError};
use crate::sst_reader::SsTableReader;
use crate::wire::copy_bytes;

verus! {

/// Why an engine operation was refused.
#[derive(Debug, Clone, Copy, PartialEq, Eq, Structural)]
pub enum LsmError {
    /// A table file is malformed; carries the reader's exact finding.
    Table(SstError),
    /// A key, value or encoded blob is too large for the store's formats.
    TooLarge,
}

/// One freshly built table image, handed to the caller to persist: write
/// it to the table file, fsync, then record `add id` in the manifest.
#[derive(Debug)]
pub struct FlushedTable {
    pub id: TableId,
    pub bytes: Vec<u8>,
}

/// The key-value engine.
pub struct LsmEngine {
    memtables: MemTableSet,
    tables: Vec<(TableId, SsTableReader)>,
    block_size: usize,
    actor_id: u64,
    local_counter: u64,
    next_table_id: TableId,
}

/// Lookup across the tables, newest (highest-numbered, last-opened) first.
pub open spec fn tables_lookup(ts: Seq<(TableId, SsTableReader)>, k: Seq<u8>) -> Option<EntrySpec>
    decreases ts.len(),
{
    if ts.len() == 0 {
        None
    } else {
        match assoc_get(records_of_table(ts.last().1.data_view()), k) {
            Some(e) => Some(e),
            None => tables_lookup(ts.drop_last(), k),
        }
    }
}

impl LsmEngine {
    pub closed spec fn tables_view(&self) -> Seq<(TableId, SsTableReader)> {
        self.tables@
    }

    pub closed spec fn mem_view(&self) -> MemTableSet {
        self.memtables
    }

    pub closed spec fn spec_block_size(&self) -> usize {
        self.block_size
    }

    pub closed spec fn spec_actor_id(&self) -> u64 {
        self.actor_id
    }

    pub closed spec fn spec_counter(&self) -> u64 {
        self.local_counter
    }

    pub closed spec fn spec_next_table_id(&self) -> TableId {
        self.next_table_id
    }

    /// Every held table is well shaped and sorted: true of every table the
    /// engine builds itself; tables loaded at startup are vouched for by
    /// the loader.
    pub open spec fn tables_good(&self) -> bool {
        forall|i: int|
            0 <= i < self.tables_view().len() ==> table_good(
                (#[trigger] self.tables_view()[i]).1.data_view(),
            ) && self.tables_view()[i].1.wf()
    }

    pub open spec fn wf(&self) -> bool {
        &&& self.mem_view().wf()
        &&& self.mem_view().imm_views().len() == 0
        &&& self.mem_view().spec_max_bytes() <= 0x8000000
        &&& self.spec_block_size() <= 0x10000000
        &&& (forall|i: int, j: int|
            0 <= i < j < self.tables_view().len() ==> (#[trigger] self.tables_view()[i]).0 < (
            #[trigger] self.tables_view()[j]).0)
        &&& (forall|i: int|
            0 <= i < self.tables_view().len() ==> (#[trigger] self.tables_view()[i]).0
                < self.spec_next_table_id())
    }

    /// The entry the layered store holds for `k`: the memtable layers
    /// first, then the tables newest first; a tombstone is an entry.
    pub open spec fn kv_entry(&self, k: Seq<u8>) -> Option<EntrySpec> {
        match self.mem_view().set_get(k) {
            Some(e) => Some(e),
            None => tables_lookup(self.tables_view(), k),
        }
    }

    /// The value a read returns for `k`: a tombstone or a never-written
    /// key reads as absent.
    pub open spec fn kv_get(&self, k: Seq<u8>) -> Option<Seq<u8>> {
        match self.kv_entry(k) {
            Some(EntrySpec::Put(v)) => Some(v),
            _ => None,
        }
    }

    /// A fresh engine over no tables.
    pub fn new(memtable_max_bytes: usize, block_size: usize) -> (r: LsmEngine)
        requires
            memtable_max_bytes <= 0x8000000,
            block_size <= 0x10000000,
        ensures
            r.wf(),
            r.tables_good(),
            r.tables_view().len() == 0,
            r.spec_actor_id() == 0,
            r.spec_counter() == 0,
            r.spec_next_table_id() == 1,
            forall|k: Seq<u8>| r.kv_get(k) is None,
            forall|k: Seq<u8>| r.kv_entry(k) is None,
    {
        let r = LsmEngine {
            memtables: MemTableSet::with_capacity(memtable_max_bytes),
            tables: Vec::new(),
            block_size,
            actor_id: 0,
            local_counter: 0,
            next_table_id: 1,
        };
        r
    }

    /// An engine recovered from the tables live at startup, oldest first
    /// by ascending identifier, each image already read from disk; an
    /// actor identity for the replicated types may be supplied. The engine
    /// holds exactly the images that open as tables, in order; one that
    /// does not open is silently skipped. The next table identifier
    /// continues after the highest supplied one, or starts at 1.
    #[verifier::rlimit(100)]
    #[verifier::spinoff_prover]
    pub fn open_with_tables(
        memtable_max_bytes: usize,
        block_size: usize,
        table_images: Vec<(TableId, Vec<u8>)>,
        actor: Option<u64>,
    ) -> (r: LsmEngine)
        requires
            memtable_max_bytes <= 0x8000000,
            block_size <= 0x10000000,
            forall|i: int, j: int|
                0 <= i < j < table_images@.len() ==> (#[trigger] table_images@[i]).0 < (
                #[trigger] table_images@[j]).0,
            forall|i: int|
                0 <= i < table_images@.len() ==> (#[trigger] table_images@[i]).0 < u64::MAX,
        ensures
            r.wf(),
            ({
                let kept = openable_images(table_images@);
                &&& r.tables_view().len() == kept.len()
                &&& (forall|i: int|
                    0 <= i < kept.len() ==> (#[trigger] r.tables_view()[i]).0 == kept[i].0
                        && r.tables_view()[i].1.data_view() == kept[i].1
                        && r.tables_view()[i].1.wf())
            }),
            r.spec_next_table_id() as int == if table_images@.len() == 0 {
                1
            } else {
                table_images@[table_images@.len() - 1].0 + 1
            },
            (forall|w: int|
                0 <= w < table_images@.len() ==> table_good((#[trigger] table_images@[w]).1@))
                ==> r.tables_good(),
            r.spec_actor_id() == (match actor {
                Some(a) => a,
                None => 0,
            }),
            r.spec_counter() == (match actor {
                Some(_) => 1u64,
                None => 0u64,
            }),
            forall|k: Seq<u8>| r.mem_view().set_get(k) is None,
    {
        let mut tables: Vec<(TableId, SsTableReader)> = Vec::new();
        let mut next_id: TableId = 1;
        let n = table_images.len();
        let mut i: usize = 0;
        proof {
            assert(openable_images(table_images@.subrange(0, 0)) =~= Seq::<
                (TableId, Seq<u8>),
            >::empty());
        }
        while i < n
            invariant
                n == table_images@.len(),
                i <= n,
                forall|m: int, j: int|
                    0 <= m < j < table_images@.len() ==> (#[trigger] table_images@[m]).0 < (
                    #[trigger] table_images@[j]).0,
                forall|m: int|
                    0 <= m < table_images@.len() ==> (#[trigger] table_images@[m]).0 < u64::MAX,
                tables@.len() <= i,
                forall|m: int, j: int|
                    0 <= m < j < tables@.len() ==> (#[trigger] tables@[m]).0 < (
                    #[trigger] tables@[j]).0,
                forall|m: int| 0 <= m < tables@.len() ==> (#[trigger] tables@[m]).0 < next_id,
                i == 0 ==> next_id == 1,
                i > 0 ==> next_id == table_images@[i - 1].0 + 1,
                tables@.len() == openable_images(table_images@.subrange(0, i as int)).len(),
                forall|m: int|
                    0 <= m < tables@.len() ==> (#[trigger] tables@[m]).0 == openable_images(
                        table_images@.subrange(0, i as int),
                    )[m].0 && tables@[m].1.data_view() == openable_images(
                        table_images@.subrange(0, i as int),
                    )[m].1 && tables@[m].1.wf(),
                (forall|w: int|
                    0 <= w < i ==> table_good((#[trigger] table_images@[w]).1@)) ==> (forall|
                    m: int,
                |
                    0 <= m < tables@.len() ==> table_good(
                        (#[trigger] tables@[m]).1.data_view(),
                    ) && tables@[m].1.wf()),
            decreases n - i,
        {
            let id = table_images[i].0;
            let data = copy_bytes(table_images[i].1.as_slice());
            proof {
                lemma_openable_images_push(
                    table_images@.subrange(0, i as int),
                    table_images@[i as int],
                );
                assert(table_images@.subrange(0, i + 1) =~= table_images@.subrange(
                    0,
                    i as int,
                ).push(table_images@[i as int]));
            }
            match SsTableReader::open(data) {
                Ok(rd) => {
                    tables.push((id, rd));
                },
                Err(_) => {},
            }
            next_id = id + 1;
            i = i + 1;
        }
        proof {
            assert(table_images@.subrange(0, n as int) =~= table_images@);
        }
        let (actor_id, local_counter): (u64, u64) = match actor {
            Some(a) => (a, 1),
            None => (0, 0),
        };
        LsmEngine {
            memtables: MemTableSet::with_capacity(memtable_max_bytes),
            tables,
            block_size,
            actor_id,
            local_counter,
            next_table_id: next_id,
        }
    }

    /// Generates a fresh element identifier for local inserts into the
    /// replicated array: this actor, next counter.
    pub fn next_element_id(&mut self) -> (r: crate::rga::ElementId)
        requires
            old(self).spec_counter() < u64::MAX,
        ensures
            final(self).spec_counter() == old(self).spec_counter() + 1,
            r.actor == old(self).spec_actor_id(),
            r.counter == old(self).spec_counter(),
            final(self).tables_view() == old(self).tables_view(),
            final(self).mem_view() == old(self).mem_view(),
            final(self).spec_actor_id() == old(self).spec_actor_id(),
            final(self).spec_next_table_id() == old(self).spec_next_table_id(),
            final(self).spec_block_size() == old(self).spec_block_size(),
    {
        let ctr = self.local_counter;
        self.local_counter = self.local_counter + 1;
        crate::rga::ElementId::new(self.actor_id, ctr)
    }

    pub fn actor_id(&self) -> (r: u64)
        ensures
            r == self.spec_actor_id(),
    {
        self.actor_id
    }

    /// Reads `key` across all layers: the memtables first, then the tables
    /// newest first; the first layer that holds the key decides, and a
    /// tombstone reads as absent. On well-shaped tables the result is owed
    /// and exact; a malformed block surfaces as its exact error.
    #[verifier::rlimit(100)]
    #[verifier::spinoff_prover]
    pub fn get(&self, key: &[u8]) -> (r: Result<Option<Vec<u8>>, LsmError>)
        requires
            self.wf(),
        ensures
            self.tables_good() ==> match r {
                Ok(Some(v)) => self.kv_get(key@) == Some(v@),
                Ok(None) => self.kv_get(key@) is None,
                Err(_) => false,
            },
    {
        if let Some(e) = self.memtables.get(key) {
            return match e {
                crate::memtable::Entry::Put(v) => Ok(Some(copy_bytes(v.as_slice()))),
                crate::memtable::Entry::Delete => Ok(None),
            };
        }
        let n = self.tables.len();
        let mut i: usize = n;
        proof {
            assert(self.tables_view().subrange(0, n as int) =~= self.tables_view());
        }
        while i > 0
            invariant
                self.wf(),
                i <= n,
                n == self.tables_view().len(),
                self.mem_view().set_get(key@) is None,
                self.tables_good() ==> tables_lookup(self.tables_view(), key@) == tables_lookup(
                    self.tables_view().subrange(0, i as int),
                    key@,
                ),
            decreases i,
        {
            i = i - 1;
            let res = self.tables[i].1.get(key);
            proof {
                if self.tables_good() {
                    let tb = self.tables_view()[i as int].1;
                    assert(table_good(tb.data_view()));
                    let ix = crate::sst_format::table_index_of(tb.data_view()).unwrap();
                    assert(tb.index_view() == ix);
                    crate::sst_format::lemma_table_get_is_assoc_get(tb.data_view(), ix, key@);
                    assert(self.tables_view().subrange(0, i + 1).last() == self.tables_view()[
                        i as int]);
                    assert(self.tables_view().subrange(0, i + 1).drop_last()
                        =~= self.tables_view().subrange(0, i as int));
                }
            }
            match res {
                Ok(Some(crate::memtable::Entry::Put(v))) => {
                    return Ok(Some(v));
                },
                Ok(Some(crate::memtable::Entry::Delete)) => {
                    return Ok(None);
                },
                Ok(None) => {},
                Err(e) => {
                    return Err(LsmError::Table(e));
                },
            }
        }
        proof {
            assert(self.tables_view().subrange(0, 0) =~= Seq::<(TableId, SsTableReader)>::empty());
        }
        Ok(None)
    }

    /// The identifier the next flushed table will get.
    pub fn next_table_id(&self) -> (r: TableId)
        ensures
            r == self.spec_next_table_id(),
    {
        self.next_table_id
    }

    /// The number of held tables.
    pub fn tables_len(&self) -> (r: usize)
        ensures
            r == self.tables_view().len(),
    {
        self.tables.len()
    }

    /// The value the memtable layers hold for `key`, when that is a put.
    pub fn memtables_hit(&self, key: &[u8]) -> (r: Option<Vec<u8>>)
        requires
            self.wf(),
        ensures
            match r {
                Some(v) => self.mem_view().set_get(key@) == Some(EntrySpec::Put(v@)),
                None => !(self.mem_view().set_get(key@) matches Some(EntrySpec::Put(_))),
            },
    {
        match self.memtables.get(key) {
            Some(crate::memtable::Entry::Put(v)) => Some(copy_bytes(v.as_slice())),
            _ => None,
        }
    }

    /// A point lookup in the `i`-th table alone; exact on a well-shaped
    /// table.
    pub fn table_get_at(&self, i: usize, key: &[u8]) -> (r: Result<
        Option<crate::memtable::Entry>,
        SstError,
    >)
        requires
            self.wf(),
            i < self.tables_view().len(),
        ensures
            self.tables_good() ==> match r {
                Ok(Some(e)) => assoc_get(
                    records_of_table(self.tables_view()[i as int].1.data_view()),
                    key@,
                ) == Some(e@),
                Ok(None) => assoc_get(
                    records_of_table(self.tables_view()[i as int].1.data_view()),
                    key@,
                ) is None,
                Err(_) => false,
            },
    {
        let res = self.tables[i].1.get(key);
        proof {
            if self.tables_good() {
                let tb = self.tables_view()[i as int].1;
                let ix = crate::sst_format::table_index_of(tb.data_view()).unwrap();
                assert(tb.index_view() == ix);
                crate::sst_format::lemma_table_get_is_assoc_get(tb.data_view(), ix, key@);
            }
        }
        res
    }

    /// Records `key -> value`. Afterwards a read of `key` yields `value`
    /// and every other key reads as before, whether or not the write
    /// tripped a flush. A flush returns the new table image for the caller
    /// to persist.
    pub fn put(&mut self, key: &[u8], value: &[u8]) -> (r: Option<FlushedTable>)
        requires
            old(self).wf(),
            9 + key@.len() + value@.len() <= 0x8000000,
            old(self).spec_next_table_id() < u64::MAX,
        ensures
            final(self).wf(),
            old(self).tables_good() ==> final(self).tables_good(),
            final(self).kv_entry(key@) == Some(EntrySpec::Put(value@)),
            final(self).kv_get(key@) == Some(value@),
            forall|k2: Seq<u8>|
                k2 != key@ ==> #[trigger] final(self).kv_entry(k2) == old(self).kv_entry(k2),
            forall|k2: Seq<u8>|
                k2 != key@ ==> #[trigger] final(self).kv_get(k2) == old(self).kv_get(k2),
            final(self).spec_actor_id() == old(self).spec_actor_id(),
            final(self).spec_counter() == old(self).spec_counter(),
            r is Some ==> final(self).spec_next_table_id() == old(self).spec_next_table_id()
                + 1,
            r is None ==> final(self).spec_next_table_id() == old(self).spec_next_table_id(),
            (r is Some) == (cost_sum(
                assoc_put(old(self).mem_view().active_view(), key@, EntrySpec::Put(value@)),
            ) >= old(self).mem_view().spec_max_bytes()),
            match r {
                Some(ft) => final(self).tables_view().len() == old(self).tables_view().len() + 1
                    && ft.id == old(self).spec_next_table_id() && table_good(ft.bytes@)
                    && records_of_table(ft.bytes@) == assoc_put(
                    old(self).mem_view().active_view(),
                    key@,
                    EntrySpec::Put(value@),
                ) && final(self).tables_view().last().0 == ft.id && final(self).tables_view().last().1.data_view() == ft.bytes@,
                None => final(self).tables_view() == old(self).tables_view(),
            },
    {
        proof {
            self.memtables.lemma_active_sorted();
            lemma_assoc_put_sorted(self.memtables.active_view(), key@, EntrySpec::Put(value@));
            crate::memtable::lemma_cost_sum_nonneg(self.memtables.active_view());
            assert(self.memtables.active_view().len() == 0 ==> cost_sum(
                self.memtables.active_view(),
            ) == 0);
        }
        let rotated = self.memtables.put(key, value);
        if rotated {
            let ft = self.flush_newest_frozen();
            Some(ft)
        } else {
            None
        }
    }

    /// Records a tombstone for `key`. Afterwards `key` reads as absent and
    /// every other key reads as before.
    pub fn delete(&mut self, key: &[u8]) -> (r: Option<FlushedTable>)
        requires
            old(self).wf(),
            9 + key@.len() <= 0x8000000,
            old(self).spec_next_table_id() < u64::MAX,
        ensures
            final(self).wf(),
            old(self).tables_good() ==> final(self).tables_good(),
            final(self).kv_entry(key@) == Some(EntrySpec::Delete),
            final(self).kv_get(key@) is None,
            forall|k2: Seq<u8>|
                k2 != key@ ==> #[trigger] final(self).kv_entry(k2) == old(self).kv_entry(k2),
            forall|k2: Seq<u8>|
                k2 != key@ ==> #[trigger] final(self).kv_get(k2) == old(self).kv_get(k2),
            final(self).spec_actor_id() == old(self).spec_actor_id(),
            final(self).spec_counter() == old(self).spec_counter(),
            r is Some ==> final(self).spec_next_table_id() == old(self).spec_next_table_id()
                + 1,
            r is None ==> final(self).spec_next_table_id() == old(self).spec_next_table_id(),
            (r is Some) == (cost_sum(
                assoc_put(old(self).mem_view().active_view(), key@, EntrySpec::Delete),
            ) >= old(self).mem_view().spec_max_bytes()),
            match r {
                Some(ft) => final(self).tables_view().len() == old(self).tables_view().len() + 1
                    && ft.id == old(self).spec_next_table_id() && table_good(ft.bytes@)
                    && records_of_table(ft.bytes@) == assoc_put(
                    old(self).mem_view().active_view(),
                    key@,
                    EntrySpec::Delete,
                ) && final(self).tables_view().last().0 == ft.id && final(self).tables_view().last().1.data_view() == ft.bytes@,
                None => final(self).tables_view() == old(self).tables_view(),
            },
    {
        proof {
            self.memtables.lemma_active_sorted();
            lemma_assoc_put_sorted(self.memtables.active_view(), key@, EntrySpec::Delete);
            crate::memtable::lemma_cost_sum_nonneg(self.memtables.active_view());
            assert(self.memtables.active_view().len() == 0 ==> cost_sum(
                self.memtables.active_view(),
            ) == 0);
        }
        let rotated = self.memtables.delete(key);
        if rotated {
            let ft = self.flush_newest_frozen();
            Some(ft)
        } else {
            None
        }
    }

    /// Flushes the active memtable if it is non-empty; a read of any key
    /// afterwards yields what it yielded before.
    pub fn flush(&mut self) -> (r: Option<FlushedTable>)
        requires
            old(self).wf(),
            old(self).spec_next_table_id() < u64::MAX,
        ensures
            final(self).wf(),
            old(self).tables_good() ==> final(self).tables_good(),
            forall|k2: Seq<u8>| #[trigger] final(self).kv_entry(k2) == old(self).kv_entry(k2),
            forall|k2: Seq<u8>| #[trigger] final(self).kv_get(k2) == old(self).kv_get(k2),
            final(self).spec_actor_id() == old(self).spec_actor_id(),
            final(self).spec_counter() == old(self).spec_counter(),
            r is Some ==> final(self).spec_next_table_id() == old(self).spec_next_table_id()
                + 1,
            r is None ==> final(self).spec_next_table_id() == old(self).spec_next_table_id(),
            (r is Some) == (old(self).mem_view().active_view().len() > 0),
            match r {
                Some(ft) => final(self).tables_view().len() == old(self).tables_view().len() + 1
                    && ft.id == old(self).spec_next_table_id() && table_good(ft.bytes@)
                    && records_of_table(ft.bytes@) == old(self).mem_view().active_view() && final(self).tables_view().last().1.data_view() == ft.bytes@ && final(self).tables_view().last().0 == ft.id,
                None => final(self).tables_view() == old(self).tables_view(),
            },
    {
        proof {
            self.memtables.lemma_wf_buffers();
            self.memtables.lemma_active_sorted();
            crate::memtable::lemma_cost_sum_nonneg(self.memtables.active_view());
            assert(self.memtables.active_view().len() == 0 ==> cost_sum(
                self.memtables.active_view(),
            ) == 0);
        }
        let rotated = self.memtables.rotate();
        if rotated {
            let ft = self.flush_newest_frozen();
            Some(ft)
        } else {
            None
        }
    }

    /// Takes the one frozen memtable off the queue, serializes it into a
    /// fresh table under a fresh identifier, and installs the table as the
    /// newest layer. Reads are unchanged: what the frozen buffer answered,
    /// the new table answers.
    fn flush_newest_frozen(&mut self) -> (ft: FlushedTable)
        requires
            old(self).mem_view().wf(),
            old(self).mem_view().imm_views().len() == 1,
            old(self).mem_view().spec_max_bytes() <= 0x8000000,
            old(self).spec_block_size() <= 0x10000000,
            cost_sum(old(self).mem_view().imm_views().last()) <= 0x10000000,
            old(self).spec_next_table_id() < u64::MAX,
            forall|i: int, j: int|
                0 <= i < j < old(self).tables_view().len() ==> (#[trigger] old(self).tables_view()[i]).0 < (#[trigger] old(self).tables_view()[j]).0,
            forall|i: int|
                0 <= i < old(self).tables_view().len() ==> (#[trigger] old(self).tables_view()[i]).0 < old(self).spec_next_table_id(),
        ensures
            final(self).wf(),
            old(self).tables_good() ==> final(self).tables_good(),
            final(self).mem_view().active_view() == old(self).mem_view().active_view(),
            final(self).tables_view().len() == old(self).tables_view().len() + 1,
            final(self).tables_view().subrange(0, old(self).tables_view().len() as int) == old(self).tables_view(),
            ft.id == old(self).spec_next_table_id(),
            final(self).spec_next_table_id() == old(self).spec_next_table_id() + 1,
            table_good(ft.bytes@),
            records_of_table(ft.bytes@) == old(self).mem_view().imm_views().last(),
            final(self).tables_view().last().0 == ft.id,
            final(self).tables_view().last().1.data_view() == ft.bytes@,
            final(self).tables_view().last().1.wf(),
            final(self).spec_actor_id() == old(self).spec_actor_id(),
            final(self).spec_counter() == old(self).spec_counter(),
            final(self).spec_block_size() == old(self).spec_block_size(),
            final(self).mem_view().spec_max_bytes() == old(self).mem_view().spec_max_bytes(),
    {
        let frozen = match self.memtables.pop_immutable() {
            Some(m) => m,
            None => {
                proof {
                    assert(false);
                }
                MemTable::new(0)
            },
        };
        proof {
            crate::memtable::lemma_memtable_bytes_is_cost(frozen);
        }
        let id = self.next_table_id;
        self.next_table_id = self.next_table_id + 1;
        let (bytes, _meta) = flush_memtable_to_sstable(&frozen, self.block_size);
        let copy = copy_bytes(bytes.as_slice());
        let reader = match SsTableReader::open(bytes) {
            Ok(rd) => rd,
            Err(_) => {
                proof {
                    assert(false);
                }
                vstd::pervasive::unreached()
            },
        };
        self.tables.push((id, reader));
        proof {
            assert(final(self).tables_view().subrange(0, old(self).tables_view().len() as int)
                =~= old(self).tables_view());
        }
        FlushedTable { id, bytes: copy }
    }
}


/// The supplied images that open as tables, in order: what recovery keeps.
pub open spec fn openable_images(imgs: Seq<(TableId, Vec<u8>)>) -> Seq<(TableId, Seq<u8>)>
    decreases imgs.len(),
{
    if imgs.len() == 0 {
        Seq::empty()
    } else {
        (if table_open(imgs[0].1@) is Ok {
            seq![(imgs[0].0, imgs[0].1@)]
        } else {
            Seq::empty()
        }) + openable_images(imgs.drop_first())
    }
}

proof fn lemma_openable_images_push(imgs: Seq<(TableId, Vec<u8>)>, x: (TableId, Vec<u8>))
    ensures
        openable_images(imgs.push(x)) == openable_images(imgs) + (if table_open(x.1@) is Ok {
            seq![(x.0, x.1@)]
        } else {
            Seq::<(TableId, Seq<u8>)>::empty()
        }),
    decreases imgs.len(),
{
    if imgs.len() == 0 {
        assert(imgs.push(x)[0] == x);
        assert(imgs.push(x).drop_first() =~= Seq::<(TableId, Vec<u8>)>::empty());
        assert(openable_images(imgs.push(x).drop_first()) =~= Seq::<(TableId, Seq<u8>)>::empty());
        assert(openable_images(imgs.push(x)) =~= openable_images(imgs) + (if table_open(
            x.1@,
        ) is Ok {
            seq![(x.0, x.1@)]
        } else {
            Seq::<(TableId, Seq<u8>)>::empty()
        }));
    } else {
        assert(imgs.push(x)[0] == imgs[0]);
        assert(imgs.push(x).drop_first() =~= imgs.drop_first().push(x));
        lemma_openable_images_push(imgs.drop_first(), x);
        assert(openable_images(imgs.push(x)) =~= openable_images(imgs) + (if table_open(
            x.1@,
        ) is Ok {
            seq![(x.0, x.1@)]
        } else {
            Seq::<(TableId, Seq<u8>)>::empty()
        }));
    }
}

/// In the crash-free case every image opens and recovery keeps them all.
pub proof fn lemma_openable_images_all(imgs: Seq<(TableId, Vec<u8>)>)
    requires
        forall|w: int| 0 <= w < imgs.len() ==> table_open((#[trigger] imgs[w]).1@) is Ok,
    ensures
        openable_images(imgs).len() == imgs.len(),
        forall|i: int|
            0 <= i < imgs.len() ==> #[trigger] openable_images(imgs)[i] == (
                imgs[i].0,
                imgs[i].1@,
            ),
    decreases imgs.len(),
{
    if imgs.len() > 0 {
        assert forall|w: int| 0 <= w < imgs.drop_first().len() implies table_open(
            (#[trigger] imgs.drop_first()[w]).1@,
        ) is Ok by {
            assert(imgs.drop_first()[w] == imgs[w + 1]);
        }
        lemma_openable_images_all(imgs.drop_first());
        assert forall|i: int| 0 <= i < imgs.len() implies #[trigger] openable_images(imgs)[i] == (
            imgs[i].0,
            imgs[i].1@,
        ) by {
            if i > 0 {
                assert(openable_images(imgs)[i] == openable_images(imgs.drop_first())[i - 1]);
                assert(imgs.drop_first()[i - 1] == imgs[i]);
            }
        }
    }
}

} // verus!