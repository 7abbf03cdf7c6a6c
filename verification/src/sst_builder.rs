//! The sorted-string table builder: accumulates records into blocks,
//! flushing each full block into the growing file image, and finishes the
//! image with the index block and the footer. The records must arrive in
//! strictly ascending key order; the finished image is a well-shaped table
//! holding exactly them.

use vstd::prelude::*;

use crate::block::{
    block_encode, lemma_record_encode_len, lemma_records_parse_of_encode, records_encode, DataBlock,
};
use crate::index::{index_encode, index_entries_encode, index_entry_encode, BlockHandle, Index};
use crate::memtable::{
    assoc_sorted, cost_sum, entry_cost, lemma_cost_at_most_sum, lemma_cost_sum_nonneg, Entry,
    EntrySpec, MemTable,
};
use crate::sst_format::{
    block_crc_at, block_payload_at, block_records_at, entry_ok, table_all_records, table_good,
    table_index_of, table_open, table_shape, records_of_table, SstError, SSTABLE_MAGIC,
    SSTABLE_VERSION,
};
use crate::wire::{
    copy_bytes, le32_bytes, le64_bytes, lemma_le32_roundtrip, lemma_le64_roundtrip,
    lemma_lex_transitive, lex_lt, push_bytes, push_le32, push_le64,
};

verus! {

/// A table identifier; the engine allocates them in increasing order.
pub type TableId = u64;

/// The file image of a sequence of blocks: their encodings, in order.
pub open spec fn blocks_encode(bs: Seq<Seq<(Seq<u8>, EntrySpec)>>) -> Seq<u8>
    decreases bs.len(),
{
    if bs.len() == 0 {
        Seq::empty()
    } else {
        block_encode(bs[0]) + blocks_encode(bs.drop_first())
    }
}

/// All records of a sequence of blocks, in order.
pub open spec fn concat_records(bs: Seq<Seq<(Seq<u8>, EntrySpec)>>) -> Seq<(Seq<u8>, EntrySpec)>
    decreases bs.len(),
{
    if bs.len() == 0 {
        Seq::empty()
    } else {
        bs[0] + concat_records(bs.drop_first())
    }
}

proof fn lemma_blocks_encode_push(bs: Seq<Seq<(Seq<u8>, EntrySpec)>>, x: Seq<(Seq<u8>, EntrySpec)>)
    ensures
        blocks_encode(bs.push(x)) == blocks_encode(bs) + block_encode(x),
        concat_records(bs.push(x)) == concat_records(bs) + x,
    decreases bs.len(),
{
    if bs.len() == 0 {
        assert(bs.push(x)[0] == x);
        assert(bs.push(x).drop_first() =~= Seq::<Seq<(Seq<u8>, EntrySpec)>>::empty());
        assert(blocks_encode(bs.push(x).drop_first()) =~= Seq::<u8>::empty());
        assert(concat_records(bs.push(x).drop_first()) =~= Seq::<(Seq<u8>, EntrySpec)>::empty());
        assert(blocks_encode(bs.push(x)) =~= blocks_encode(bs) + block_encode(x));
        assert(concat_records(bs.push(x)) =~= concat_records(bs) + x);
    } else {
        assert(bs.push(x)[0] == bs[0]);
        assert(bs.push(x).drop_first() =~= bs.drop_first().push(x));
        lemma_blocks_encode_push(bs.drop_first(), x);
        assert(blocks_encode(bs.push(x)) =~= blocks_encode(bs) + block_encode(x));
        assert(concat_records(bs.push(x)) =~= concat_records(bs) + x);
    }
}

/// The image and the records split around any one block.
proof fn lemma_blocks_split(bs: Seq<Seq<(Seq<u8>, EntrySpec)>>, i: int)
    requires
        0 <= i < bs.len(),
    ensures
        blocks_encode(bs) == blocks_encode(bs.subrange(0, i)) + block_encode(bs[i])
            + blocks_encode(bs.subrange(i + 1, bs.len() as int)),
        concat_records(bs) == concat_records(bs.subrange(0, i)) + bs[i] + concat_records(
            bs.subrange(i + 1, bs.len() as int),
        ),
    decreases i,
{
    if i == 0 {
        assert(bs.subrange(0, 0) =~= Seq::<Seq<(Seq<u8>, EntrySpec)>>::empty());
        assert(bs.subrange(1, bs.len() as int) =~= bs.drop_first());
        assert(blocks_encode(bs) =~= blocks_encode(bs.subrange(0, 0)) + block_encode(bs[0])
            + blocks_encode(bs.subrange(1, bs.len() as int)));
        assert(concat_records(bs) =~= concat_records(bs.subrange(0, 0)) + bs[0] + concat_records(
            bs.subrange(1, bs.len() as int),
        ));
    } else {
        lemma_blocks_split(bs.drop_first(), i - 1);
        assert(bs.drop_first().subrange(0, i - 1) =~= bs.subrange(1, i));
        assert(bs.drop_first().subrange(i, bs.drop_first().len() as int) =~= bs.subrange(
            i + 1,
            bs.len() as int,
        ));
        assert(bs.drop_first()[i - 1] == bs[i]);
        assert(bs.subrange(0, i) =~= seq![bs[0]] + bs.subrange(1, i));
        assert(blocks_encode(bs.subrange(0, i)) =~= block_encode(bs[0]) + blocks_encode(
            bs.subrange(1, i),
        )) by {
            assert(bs.subrange(0, i)[0] == bs[0]);
            assert(bs.subrange(0, i).drop_first() =~= bs.subrange(1, i));
        }
        assert(concat_records(bs.subrange(0, i)) =~= bs[0] + concat_records(bs.subrange(1, i))) by {
            assert(bs.subrange(0, i)[0] == bs[0]);
            assert(bs.subrange(0, i).drop_first() =~= bs.subrange(1, i));
        }
        assert(blocks_encode(bs) =~= blocks_encode(bs.subrange(0, i)) + block_encode(bs[i])
            + blocks_encode(bs.subrange(i + 1, bs.len() as int)));
        assert(concat_records(bs) =~= concat_records(bs.subrange(0, i)) + bs[i] + concat_records(
            bs.subrange(i + 1, bs.len() as int),
        ));
    }
}

/// Byte cost splits over concatenation.
pub proof fn lemma_cost_sum_concat(a: Seq<(Seq<u8>, EntrySpec)>, b: Seq<(Seq<u8>, EntrySpec)>)
    ensures
        cost_sum(a + b) == cost_sum(a) + cost_sum(b),
    decreases a.len(),
{
    if a.len() == 0 {
        assert(a + b =~= b);
    } else {
        assert((a + b)[0] == a[0]);
        assert((a + b).drop_first() =~= a.drop_first() + b);
        lemma_cost_sum_concat(a.drop_first(), b);
    }
}

/// Accumulates records into blocks and finishes a table image.
pub struct SsTableBuilder {
    buf: Vec<u8>,
    block: DataBlock,
    block_size: usize,
    index: Index,
    last_key_in_block: Vec<u8>,
    flushed: Ghost<Seq<Seq<(Seq<u8>, EntrySpec)>>>,
}

impl SsTableBuilder {
    /// Every record appended so far, in order.
    pub closed spec fn added(&self) -> Seq<(Seq<u8>, EntrySpec)> {
        concat_records(self.flushed@) + self.block@
    }

    pub closed spec fn spec_block_size(&self) -> usize {
        self.block_size
    }

    /// Per-record size bound: lengths fit their fields and one block plus
    /// one record never outgrows the length fields.
    pub open spec fn rec_ok(k: Seq<u8>, e: EntrySpec) -> bool {
        &&& k.len() < 0x100000000
        &&& (match e {
            EntrySpec::Put(v) => v.len() < 0x100000000,
            EntrySpec::Delete => true,
        })
        &&& entry_cost(k, e) <= 0x10000000
    }

    pub closed spec fn wf(&self) -> bool {
        &&& self.block.wf()
        &&& self.block.spec_block_size() == self.block_size
        &&& self.block_size <= 0x10000000
        &&& self.buf@ == blocks_encode(self.flushed@)
        &&& self.index@.len() == self.flushed@.len()
        &&& (forall|i: int|
            0 <= i < self.flushed@.len() ==> (#[trigger] self.flushed@[i]).len() > 0)
        &&& (forall|i: int|
            0 <= i < self.flushed@.len() ==> (#[trigger] self.index@[i]).0
                == self.flushed@[i].last().0)
        &&& (forall|i: int|
            0 <= i < self.flushed@.len() ==> (#[trigger] self.index@[i]).1.offset as int
                == blocks_encode(self.flushed@.subrange(0, i)).len())
        &&& (forall|i: int|
            0 <= i < self.flushed@.len() ==> (#[trigger] self.index@[i]).1.length as int
                == block_encode(self.flushed@[i]).len())
        &&& (forall|j: int|
            0 <= j < self.added().len() ==> Self::rec_ok(
                (#[trigger] self.added()[j]).0,
                self.added()[j].1,
            ))
        &&& assoc_sorted(self.added())
        &&& (self.block@.len() > 0 ==> self.last_key_in_block@ == self.block@.last().0)
        &&& (self.block.payload_len() <= self.block_size || self.block@.len() == 1)
        &&& self.buf@.len() == cost_sum(concat_records(self.flushed@)) + 4 * self.flushed@.len()
        &&& 9 * self.flushed@.len() <= cost_sum(concat_records(self.flushed@))
        &&& index_encode(self.index@).len() <= 4 + 2 * self.buf@.len()
    }

    pub fn new(block_size: usize) -> (r: SsTableBuilder)
        requires
            block_size <= 0x10000000,
        ensures
            r.wf(),
            r.added() == Seq::<(Seq<u8>, EntrySpec)>::empty(),
            r.spec_block_size() == block_size,
    {
        let r = SsTableBuilder {
            buf: Vec::new(),
            block: DataBlock::new(block_size),
            block_size,
            index: Index::new(),
            last_key_in_block: Vec::new(),
            flushed: Ghost(Seq::empty()),
        };
        proof {
            assert(blocks_encode(r.flushed@) =~= Seq::<u8>::empty());
            assert(concat_records(r.flushed@) =~= Seq::<(Seq<u8>, EntrySpec)>::empty());
            assert(r.added() =~= Seq::<(Seq<u8>, EntrySpec)>::empty());
            assert(index_encode(r.index@).len() == 4) by {
                assert(index_entries_encode(r.index@) =~= Seq::<u8>::empty());
            }
        }
        r
    }

    /// Appends a put record; keys must arrive in strictly ascending order.
    pub fn add_put(&mut self, key: &[u8], value: &[u8])
        requires
            old(self).wf(),
            old(self).added().len() == 0 || lex_lt(old(self).added().last().0, key@),
            9 + key@.len() + value@.len() <= 0x10000000,
        ensures
            final(self).wf(),
            final(self).added() == old(self).added().push((key@, EntrySpec::Put(value@))),
            final(self).spec_block_size() == old(self).spec_block_size(),
    {
        let rec_len = 9 + key.len() + value.len();
        self.make_room(rec_len);
        let ghost before = self.added();
        self.block.add_put(key, value);
        self.last_key_in_block = copy_bytes(key);
        proof {
            self.lemma_after_append(before, key@, EntrySpec::Put(value@));
        }
    }

    /// Appends a delete record; keys must arrive in strictly ascending
    /// order.
    pub fn add_delete(&mut self, key: &[u8])
        requires
            old(self).wf(),
            old(self).added().len() == 0 || lex_lt(old(self).added().last().0, key@),
            9 + key@.len() <= 0x10000000,
        ensures
            final(self).wf(),
            final(self).added() == old(self).added().push((key@, EntrySpec::Delete)),
            final(self).spec_block_size() == old(self).spec_block_size(),
    {
        let rec_len = 9 + key.len();
        self.make_room(rec_len);
        let ghost before = self.added();
        self.block.add_delete(key);
        self.last_key_in_block = copy_bytes(key);
        proof {
            self.lemma_after_append(before, key@, EntrySpec::Delete);
        }
    }

    /// Re-establishes the invariant after one record went into the block.
    proof fn lemma_after_append(&self, before: Seq<(Seq<u8>, EntrySpec)>, k: Seq<u8>, e: EntrySpec)
        requires
            self.added() == before.push((k, e)),
            assoc_sorted(before),
            before.len() == 0 || lex_lt(before.last().0, k),
            forall|j: int|
                0 <= j < before.len() ==> Self::rec_ok((#[trigger] before[j]).0, before[j].1),
            Self::rec_ok(k, e),
        ensures
            assoc_sorted(self.added()),
            forall|j: int|
                0 <= j < self.added().len() ==> Self::rec_ok(
                    (#[trigger] self.added()[j]).0,
                    self.added()[j].1,
                ),
    {
        let t = self.added();
        assert forall|i: int, j: int| 0 <= i < j < t.len() implies lex_lt(
            (#[trigger] t[i]).0,
            (#[trigger] t[j]).0,
        ) by {
            if j < t.len() - 1 {
                assert(t[i] == before[i] && t[j] == before[j]);
            } else {
                assert(t[i] == before[i]);
                if i < before.len() - 1 {
                    assert(lex_lt(before[i].0, before.last().0));
                    lemma_lex_transitive(before[i].0, before.last().0, k);
                }
            }
        }
        assert forall|j: int| 0 <= j < t.len() implies Self::rec_ok(
            (#[trigger] t[j]).0,
            t[j].1,
        ) by {
            if j < t.len() - 1 {
                assert(t[j] == before[j]);
            }
        }
    }

    /// Flushes the current block first when appending `incoming` more
    /// bytes would overflow it.
    fn make_room(&mut self, incoming: usize)
        requires
            old(self).wf(),
            9 <= incoming <= 0x10000000,
        ensures
            final(self).wf(),
            final(self).added() == old(self).added(),
            final(self).spec_block_size() == old(self).spec_block_size(),
            final(self).block.wf(),
            final(self).block.payload_len() + incoming <= usize::MAX,
            final(self).block.payload_len() + incoming <= final(self).spec_block_size() || final(self).block@.len() == 0,
    {
        proof {
            crate::block::lemma_records_encode_empty(self.block@);
            self.block.lemma_payload_is_cost();
            if self.block@.len() == 1 {
                let all = self.added();
                lemma_cost_sum_nonneg(concat_records(self.flushed@));
                assert(all.len() == concat_records(self.flushed@).len() + 1);
                assert(all[all.len() - 1] == self.block@[0]);
                assert(Self::rec_ok(self.block@[0].0, self.block@[0].1));
                assert(cost_sum(self.block@) == entry_cost(self.block@[0].0, self.block@[0].1)
                    + cost_sum(self.block@.drop_first()));
                assert(cost_sum(self.block@.drop_first()) == 0);
                assert(self.block.payload_len() <= 0x10000000);
            } else {
                assert(self.block.payload_len() <= 0x10000000);
            }
        }
        if self.block.is_empty() {
            return ;
        }
        if self.block.is_full(incoming) {
            self.flush_block();
        }
    }

    /// Writes the current block's encoding at the end of the image and
    /// records its largest key and byte range in the index.
    #[verifier::rlimit(100)]
    #[verifier::spinoff_prover]
    fn flush_block(&mut self)
        requires
            old(self).wf(),
            old(self).block@.len() > 0,
        ensures
            final(self).wf(),
            final(self).added() == old(self).added(),
            final(self).spec_block_size() == old(self).spec_block_size(),
            final(self).block@.len() == 0,
    {
        let ghost f0 = self.flushed@;
        let ghost blk0 = self.block@;
        proof {
            crate::block::lemma_records_encode_len_is_cost(blk0);
            lemma_cost_sum_nonneg(blk0);
            lemma_cost_at_most_sum(blk0, blk0.len() - 1);
            // Every record of the block is a record of `added`, so its cost
            // is bounded.
            let all = self.added();
            assert(all == concat_records(f0) + blk0);
            assert(all.len() == concat_records(f0).len() + blk0.len());
            assert(all[concat_records(f0).len() + blk0.len() - 1] == blk0[blk0.len() - 1]);
            assert(Self::rec_ok(blk0.last().0, blk0.last().1));
        }
        let offset = self.buf.len() as u64;
        let mut fresh = DataBlock::new(self.block_size);
        core::mem::swap(&mut self.block, &mut fresh);
        proof {
            // The block payload is bounded, so its encoding length fits u32:
            // the payload is one oversized record, or at most the block size.
            fresh.lemma_payload_is_cost();
            assert(fresh.payload_len() == cost_sum(blk0));
            if blk0.len() == 1 {
                assert(cost_sum(blk0) == entry_cost(blk0[0].0, blk0[0].1) + cost_sum(
                    blk0.drop_first(),
                ));
                assert(cost_sum(blk0.drop_first()) == 0);
                let all = old(self).added();
                assert(all.len() == concat_records(f0).len() + 1);
                assert(all[all.len() - 1] == blk0[0]);
                assert(Self::rec_ok(blk0[0].0, blk0[0].1));
                assert(cost_sum(blk0) <= 0x10000000);
            } else {
                assert(cost_sum(blk0) <= self.block_size);
            }
        }
        let encoded = fresh.encode();
        let length = encoded.len() as u32;
        push_bytes(&mut self.buf, encoded.as_slice());
        self.index.add(
            self.last_key_in_block.as_slice(),
            BlockHandle { offset, length },
        );
        proof {
            self.flushed@ = f0.push(blk0);
            lemma_blocks_encode_push(f0, blk0);
            assert(self.buf@ =~= blocks_encode(self.flushed@));
            assert(self.added() =~= concat_records(f0) + blk0);
            lemma_cost_sum_concat(concat_records(f0), blk0);
            assert(cost_sum(concat_records(self.flushed@)) == cost_sum(concat_records(f0))
                + cost_sum(blk0));
            // Index bookkeeping.
            assert forall|i: int| 0 <= i < self.flushed@.len() implies (#[trigger] self.index@[i]).1.offset as int
                == blocks_encode(self.flushed@.subrange(0, i)).len() by {
                if i < f0.len() {
                    assert(self.index@[i] == old(self).index@[i]);
                    assert(self.flushed@.subrange(0, i) =~= f0.subrange(0, i));
                } else {
                    assert(self.flushed@.subrange(0, i) =~= f0);
                }
            }
            assert forall|i: int| 0 <= i < self.flushed@.len() implies (#[trigger] self.index@[i]).1.length as int
                == block_encode(self.flushed@[i]).len() by {
                if i < f0.len() {
                    assert(self.index@[i] == old(self).index@[i]);
                    assert(self.flushed@[i] == f0[i]);
                }
            }
            assert forall|i: int| 0 <= i < self.flushed@.len() implies (#[trigger] self.index@[i]).0
                == self.flushed@[i].last().0 by {
                if i < f0.len() {
                    assert(self.index@[i] == old(self).index@[i]);
                    assert(self.flushed@[i] == f0[i]);
                }
            }
            // The index stays within twice the image.
            crate::index::lemma_index_entries_encode_push(
                old(self).index@,
                (old(self).last_key_in_block@, BlockHandle { offset, length }),
            );
            assert(index_entry_encode(blk0.last().0, BlockHandle { offset, length }).len() == 16
                + blk0.last().0.len());
            assert(9 + blk0.last().0.len() <= cost_sum(blk0));
            assert(index_encode(self.index@).len() <= 4 + 2 * self.buf@.len());
        }
    }

    /// Flushes any buffered block, writes the index block and the footer,
    /// and yields the finished table image: a well-shaped table holding
    /// exactly the appended records.
    #[verifier::rlimit(100)]
    #[verifier::spinoff_prover]
    pub fn finish(&mut self) -> (r: Vec<u8>)
        requires
            old(self).wf(),
            cost_sum(old(self).added()) <= 0x10000000,
        ensures
            table_good(r@),
            records_of_table(r@) == old(self).added(),
    {
        proof {
            lemma_cost_sum_concat(concat_records(self.flushed@), self.block@);
            lemma_cost_sum_nonneg(self.block@);
            lemma_cost_sum_nonneg(concat_records(self.flushed@));
            crate::block::lemma_records_encode_empty(self.block@);
            self.block.lemma_payload_is_cost();
        }
        if !self.block.is_empty() {
            self.flush_block();
        }
        proof {
            assert(self.added() =~= concat_records(self.flushed@));
            lemma_cost_sum_concat(concat_records(self.flushed@), self.block@);
            lemma_cost_sum_nonneg(self.block@);
        }
        let ghost fl = self.flushed@;
        let ghost added = self.added();
        proof {
            assert(cost_sum(concat_records(fl)) <= 0x10000000);
            assert(9 * fl.len() <= 0x10000000);
            self.lemma_index_key_bounds(fl, added);
        }
        let ix_bytes = self.index.encode();
        let index_offset = self.buf.len() as u64;
        proof {
            assert(9 * self.buf@.len() <= 13 * 0x10000000) by {
                assert(self.buf@.len() == cost_sum(concat_records(fl)) + 4 * fl.len());
            }
            assert(ix_bytes@.len() < 0x100000000);
        }
        let index_len = ix_bytes.len() as u32;
        push_bytes(&mut self.buf, ix_bytes.as_slice());
        push_le64(&mut self.buf, index_offset);
        push_le32(&mut self.buf, index_len);
        push_le32(&mut self.buf, SSTABLE_VERSION);
        push_le64(&mut self.buf, SSTABLE_MAGIC);
        proof {
            assert(self.buf@ =~= blocks_encode(fl) + index_encode(self.index@)
                + crate::sst_format::footer_encode(index_offset, index_len));
            self.lemma_image_reads_back(fl, added, index_offset, index_len);
        }
        let mut out: Vec<u8> = Vec::new();
        core::mem::swap(&mut self.buf, &mut out);
        out
    }

    /// Every index key is a stored record's key, so it fits its field.
    proof fn lemma_index_key_bounds(
        &self,
        fl: Seq<Seq<(Seq<u8>, EntrySpec)>>,
        added: Seq<(Seq<u8>, EntrySpec)>,
    )
        requires
            self.index@.len() == fl.len(),
            added == concat_records(fl),
            forall|j: int| 0 <= j < fl.len() ==> (#[trigger] fl[j]).len() > 0,
            forall|j: int| 0 <= j < fl.len() ==> (#[trigger] self.index@[j]).0 == fl[j].last().0,
            forall|j: int|
                0 <= j < added.len() ==> Self::rec_ok((#[trigger] added[j]).0, added[j].1),
        ensures
            forall|i: int|
                0 <= i < self.index@.len() ==> (#[trigger] self.index@[i]).0.len() < 0x100000000,
    {
        assert forall|i: int| 0 <= i < self.index@.len() implies (#[trigger] self.index@[i]).0.len()
            < 0x100000000 by {
            lemma_blocks_split(fl, i);
            let pre = concat_records(fl.subrange(0, i));
            assert(added[pre.len() + fl[i].len() - 1] == fl[i].last());
            assert(Self::rec_ok(fl[i].last().0, fl[i].last().1));
        }
    }

    /// The finished image opens to the builder's index and denotes exactly
    /// the appended records.
    #[verifier::rlimit(100)]
    #[verifier::spinoff_prover]
    proof fn lemma_image_reads_back(
        &self,
        fl: Seq<Seq<(Seq<u8>, EntrySpec)>>,
        added: Seq<(Seq<u8>, EntrySpec)>,
        index_offset: u64,
        index_len: u32,
    )
        requires
            self.index@.len() == fl.len(),
            self.index@.len() < 0x100000000,
            forall|j: int|
                0 <= j < self.index@.len() ==> (#[trigger] self.index@[j]).0.len() < 0x100000000,
            added == concat_records(fl),
            assoc_sorted(added),
            forall|j: int| 0 <= j < fl.len() ==> (#[trigger] fl[j]).len() > 0,
            forall|j: int| 0 <= j < fl.len() ==> (#[trigger] self.index@[j]).0 == fl[j].last().0,
            forall|j: int|
                0 <= j < fl.len() ==> (#[trigger] self.index@[j]).1.offset as int == blocks_encode(
                    fl.subrange(0, j),
                ).len(),
            forall|j: int|
                0 <= j < fl.len() ==> (#[trigger] self.index@[j]).1.length as int == block_encode(
                    fl[j],
                ).len(),
            forall|j: int|
                0 <= j < added.len() ==> Self::rec_ok((#[trigger] added[j]).0, added[j].1),
            index_offset as int == blocks_encode(fl).len(),
            index_len as int == index_encode(self.index@).len(),
            self.buf@ == blocks_encode(fl) + index_encode(self.index@)
                + crate::sst_format::footer_encode(index_offset, index_len),
        ensures
            table_good(self.buf@),
            records_of_table(self.buf@) == added,
    {
        let ix = self.index@;
        self.lemma_open_reads_back(fl, index_offset, index_len);
        let b = self.buf@;
        let blocks = blocks_encode(fl);
        assert(b.subrange(0, blocks.len() as int) =~= blocks) by {
            assert forall|m: int| 0 <= m < blocks.len() implies #[trigger] b.subrange(
                0,
                blocks.len() as int,
            )[m] == blocks[m] by {
                assert(b[m] == (blocks + index_encode(ix) + crate::sst_format::footer_encode(
                    index_offset,
                    index_len,
                ))[m]);
            }
        }
        assert forall|i: int| 0 <= i < ix.len() implies entry_ok(
            b,
            (#[trigger] ix[i]).0,
            ix[i].1,
        ) && block_records_at(b, ix[i].1) == fl[i] by {
            self.lemma_entry_reads_back(b, fl, added, i);
        }
        lemma_table_records_are(b, ix, fl);
        assert(records_of_table(b) == added);
    }

    /// The finished image's footer and index read back.
    #[verifier::rlimit(100)]
    #[verifier::spinoff_prover]
    proof fn lemma_open_reads_back(
        &self,
        fl: Seq<Seq<(Seq<u8>, EntrySpec)>>,
        index_offset: u64,
        index_len: u32,
    )
        requires
            self.index@.len() < 0x100000000,
            forall|j: int|
                0 <= j < self.index@.len() ==> (#[trigger] self.index@[j]).0.len() < 0x100000000,
            index_offset as int == blocks_encode(fl).len(),
            index_len as int == index_encode(self.index@).len(),
            self.buf@ == blocks_encode(fl) + index_encode(self.index@)
                + crate::sst_format::footer_encode(index_offset, index_len),
        ensures
            table_open(self.buf@) == Ok::<Seq<(Seq<u8>, BlockHandle)>, SstError>(self.index@),
    {
        let ix = self.index@;
        let blocks = blocks_encode(fl);
        let ixb = index_encode(ix);
        let b = self.buf@;
        let foot = crate::sst_format::footer_encode(index_offset, index_len);
        let prefix = blocks + ixb;
        assert(b =~= prefix + foot);
        let n = b.len() as int;
        assert(n == prefix.len() + 24);
        lemma_le64_roundtrip(index_offset);
        lemma_le32_roundtrip(index_len);
        lemma_le32_roundtrip(SSTABLE_VERSION);
        lemma_le64_roundtrip(SSTABLE_MAGIC);
        assert(b.subrange(n - 24, n - 16) =~= le64_bytes(index_offset)) by {
            assert forall|m: int| 0 <= m < 8 implies #[trigger] b.subrange(n - 24, n - 16)[m]
                == le64_bytes(index_offset)[m] by {
                assert(b.subrange(n - 24, n - 16)[m] == foot[m]);
            }
        }
        assert(b.subrange(n - 16, n - 12) =~= le32_bytes(index_len)) by {
            assert forall|m: int| 0 <= m < 4 implies #[trigger] b.subrange(n - 16, n - 12)[m]
                == le32_bytes(index_len)[m] by {
                assert(b.subrange(n - 16, n - 12)[m] == foot[8 + m]);
            }
        }
        assert(b.subrange(n - 12, n - 8) =~= le32_bytes(SSTABLE_VERSION)) by {
            assert forall|m: int| 0 <= m < 4 implies #[trigger] b.subrange(n - 12, n - 8)[m]
                == le32_bytes(SSTABLE_VERSION)[m] by {
                assert(b.subrange(n - 12, n - 8)[m] == foot[12 + m]);
            }
        }
        assert(b.subrange(n - 8, n) =~= le64_bytes(SSTABLE_MAGIC)) by {
            assert forall|m: int| 0 <= m < 8 implies #[trigger] b.subrange(n - 8, n)[m]
                == le64_bytes(SSTABLE_MAGIC)[m] by {
                assert(b.subrange(n - 8, n)[m] == foot[16 + m]);
            }
        }
        assert(index_offset + index_len <= b.len());
        assert(b.subrange(index_offset as int, index_offset + index_len) =~= ixb) by {
            assert forall|m: int| 0 <= m < ixb.len() implies #[trigger] b.subrange(
                index_offset as int,
                index_offset + index_len,
            )[m] == ixb[m] by {
                assert(b.subrange(index_offset as int, index_offset + index_len)[m] == prefix[
                    blocks.len() + m]);
            }
        }
        crate::index::lemma_index_parse_of_encode(ix);
    }

    /// One flushed block, relocated into the final image, still holds its
    /// records behind a matching checksum.
    #[verifier::rlimit(100)]
    #[verifier::spinoff_prover]
    proof fn lemma_entry_reads_back(
        &self,
        b: Seq<u8>,
        fl: Seq<Seq<(Seq<u8>, EntrySpec)>>,
        added: Seq<(Seq<u8>, EntrySpec)>,
        i: int,
    )
        requires
            0 <= i < self.index@.len(),
            self.index@.len() == fl.len(),
            added == concat_records(fl),
            forall|j: int| 0 <= j < fl.len() ==> (#[trigger] fl[j]).len() > 0,
            forall|j: int|
                0 <= j < fl.len() ==> (#[trigger] self.index@[j]).0 == fl[j].last().0,
            forall|j: int|
                0 <= j < fl.len() ==> (#[trigger] self.index@[j]).1.offset as int == blocks_encode(
                    fl.subrange(0, j),
                ).len(),
            forall|j: int|
                0 <= j < fl.len() ==> (#[trigger] self.index@[j]).1.length as int == block_encode(
                    fl[j],
                ).len(),
            forall|j: int|
                0 <= j < added.len() ==> Self::rec_ok((#[trigger] added[j]).0, added[j].1),
            b.subrange(0, blocks_encode(fl).len() as int) == blocks_encode(fl),
            blocks_encode(fl).len() <= b.len(),
        ensures
            entry_ok(b, self.index@[i].0, self.index@[i].1),
            block_records_at(b, self.index@[i].1) == fl[i],
    {
        let ix = self.index@;
        let blocks = blocks_encode(fl);
        lemma_blocks_split(fl, i);
        let h = ix[i].1;
        let off = h.offset as int;
        let len = h.length as int;
        let enc = block_encode(fl[i]);
        let payload = records_encode(fl[i]);
        crate::block::lemma_records_encode_empty(fl[i]);
        assert(len == payload.len() + 4);
        let pre_b = blocks_encode(fl.subrange(0, i));
        let post_b = blocks_encode(fl.subrange(i + 1, fl.len() as int));
        assert(blocks =~= pre_b + enc + post_b);
        assert(off == pre_b.len());
        assert(off + len <= blocks.len());
        assert(b.subrange(off, off + len) =~= enc) by {
            assert forall|m: int| 0 <= m < len implies #[trigger] b.subrange(off, off + len)[m]
                == enc[m] by {
                assert(b.subrange(off, off + len)[m] == b[off + m]);
                assert(b[off + m] == b.subrange(0, blocks.len() as int)[off + m]);
                assert(blocks[off + m] == (pre_b + enc + post_b)[off + m]);
            }
        }
        assert(block_payload_at(b, h) =~= payload) by {
            assert forall|m: int| 0 <= m < payload.len() implies #[trigger] block_payload_at(
                b,
                h,
            )[m] == payload[m] by {
                assert(block_payload_at(b, h)[m] == b.subrange(off, off + len)[m]);
                assert(enc[m] == payload[m]);
            }
        }
        assert(b.subrange(off + len - 4, off + len) =~= le32_bytes(
            crate::checksum::crc32_of(payload),
        )) by {
            assert forall|m: int| 0 <= m < 4 implies #[trigger] b.subrange(
                off + len - 4,
                off + len,
            )[m] == le32_bytes(crate::checksum::crc32_of(payload))[m] by {
                assert(b.subrange(off + len - 4, off + len)[m] == b.subrange(off, off + len)[
                    payload.len() + m]);
                assert(enc[payload.len() + m] == le32_bytes(crate::checksum::crc32_of(payload))[m]);
            }
        }
        lemma_le32_roundtrip(crate::checksum::crc32_of(payload));
        assert(block_crc_at(b, h) == crate::checksum::crc32_of(block_payload_at(b, h)));
        // The payload parses back to the block's records.
        lemma_cost_sum_concat(
            concat_records(fl.subrange(0, i)),
            fl[i] + concat_records(fl.subrange(i + 1, fl.len() as int)),
        );
        let pre_r = concat_records(fl.subrange(0, i));
        assert forall|m: int| 0 <= m < fl[i].len() implies Self::rec_ok(
            (#[trigger] fl[i][m]).0,
            fl[i][m].1,
        ) by {
            assert(added[pre_r.len() + m] == fl[i][m]);
        }
        assert(block_payload_at(b, h).subrange(0, block_payload_at(b, h).len() as int)
            =~= records_encode(fl[i]));
        lemma_records_parse_of_encode(block_payload_at(b, h), 0, fl[i]);
        assert(block_records_at(b, h) == fl[i]);
    }
}

/// With every entry's block reading back, the table's records are the
/// flushed blocks' records in order.
proof fn lemma_table_records_are(
    b: Seq<u8>,
    ix: Seq<(Seq<u8>, BlockHandle)>,
    bs: Seq<Seq<(Seq<u8>, EntrySpec)>>,
)
    requires
        ix.len() == bs.len(),
        forall|i: int| 0 <= i < ix.len() ==> block_records_at(b, (#[trigger] ix[i]).1) == bs[i],
    ensures
        table_all_records(b, ix) == concat_records(bs),
    decreases ix.len(),
{
    if ix.len() > 0 {
        assert forall|i: int| 0 <= i < ix.drop_first().len() implies block_records_at(
            b,
            (#[trigger] ix.drop_first()[i]).1,
        ) == bs.drop_first()[i] by {
            assert(ix.drop_first()[i] == ix[i + 1]);
            assert(bs.drop_first()[i] == bs[i + 1]);
        }
        lemma_table_records_are(b, ix.drop_first(), bs.drop_first());
        assert(table_all_records(b, ix) =~= concat_records(bs));
    } else {
        assert(table_all_records(b, ix) =~= concat_records(bs));
    }
}

/// What one flush produced: the table image's bounds and size. The table
/// identifier is assigned by the engine, not here.
#[derive(Debug)]
pub struct FlushResult {
    pub id: TableId,
    pub smallest: Vec<u8>,
    pub largest: Vec<u8>,
    pub file_len: u64,
}

/// Serializes a frozen memtable into a table image: a well-shaped table
/// whose records are exactly the memtable's entries, in ascending key
/// order.
#[verifier::rlimit(100)]
#[verifier::spinoff_prover]
pub fn flush_memtable_to_sstable(mem: &MemTable, block_size: usize) -> (r: (Vec<u8>, FlushResult))
    requires
        mem.wf(),
        mem.spec_bytes_used() <= 0x10000000,
        block_size <= 0x10000000,
    ensures
        table_good(r.0@),
        records_of_table(r.0@) == mem@,
        r.1.id == 0,
        r.1.file_len == r.0@.len(),
        mem@.len() == 0 ==> r.1.smallest@ == Seq::<u8>::empty() && r.1.largest@ == Seq::<
            u8,
        >::empty(),
        mem@.len() > 0 ==> r.1.smallest@ == mem@[0].0 && r.1.largest@ == mem@[mem@.len() - 1].0,
{
    proof {
        crate::memtable::lemma_memtable_wf_sorted(*mem);
        crate::memtable::lemma_memtable_bytes_is_cost(*mem);
    }
    let mut builder = SsTableBuilder::new(block_size);
    let n = mem.len();
    let mut i: usize = 0;
    while i < n
        invariant
            mem.wf(),
            cost_sum(mem@) <= 0x10000000,
            i <= n,
            n == mem@.len(),
            builder.wf(),
            builder.spec_block_size() == block_size,
            builder.added() == mem@.subrange(0, i as int),
        decreases n - i,
    {
        let key = mem.key_at(i);
        let entry = mem.entry_at(i);
        proof {
            crate::memtable::lemma_memtable_wf_sorted(*mem);
            crate::memtable::lemma_memtable_bytes_is_cost(*mem);
            lemma_cost_at_most_sum(mem@, i as int);
            assert(entry_cost(mem@[i as int].0, mem@[i as int].1) <= 0x10000000);
            if i > 0 {
                assert(builder.added().last() == mem@[i - 1]);
                assert(lex_lt(mem@[i - 1].0, mem@[i as int].0));
            }
        }
        match entry {
            Entry::Put(v) => builder.add_put(key.as_slice(), v.as_slice()),
            Entry::Delete => builder.add_delete(key.as_slice()),
        }
        proof {
            assert(builder.added() =~= mem@.subrange(0, i + 1));
        }
        i = i + 1;
    }
    proof {
        assert(builder.added() =~= mem@);
        crate::memtable::lemma_memtable_bytes_is_cost(*mem);
    }
    let smallest: Vec<u8> = match mem.smallest_key() {
        Some(k) => copy_bytes(k.as_slice()),
        None => Vec::new(),
    };
    let largest: Vec<u8> = match mem.largest_key() {
        Some(k) => copy_bytes(k.as_slice()),
        None => Vec::new(),
    };
    let bytes = builder.finish();
    let file_len = bytes.len() as u64;
    proof {
        assert(smallest@.len() == 0 ==> smallest@ =~= Seq::<u8>::empty());
        assert(largest@.len() == 0 ==> largest@ =~= Seq::<u8>::empty());
    }
    (bytes, FlushResult { id: 0, smallest, largest, file_len })
}

} // verus!
