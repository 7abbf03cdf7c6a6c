//! The sorted-string table file format: data blocks, then the index block,
//! then a fixed 24-byte footer. This module gives the format its
//! mathematical reading — what a file's footer, index and blocks denote —
//! and proves that a well-shaped table answers point lookups exactly like
//! the sorted record sequence it stores.

use vstd::prelude::*;

use crate::block::records_parse;
use crate::checksum::crc32_of;
use crate::index::{index_find, index_parse, BlockHandle};
use crate::memtable::{assoc_get, assoc_sorted, lemma_assoc_get_none, EntrySpec};
use crate::wire::{le32_bytes, le32_val, le64_bytes, le64_val, lemma_lex_asymmetric, lex_lt};

verus! {

/// Marks a file as a table of this store.
pub const SSTABLE_MAGIC: u64 = 0x7a796e6b5f737374;

/// The only format version readers accept.
pub const SSTABLE_VERSION: u32 = 1;

/// The footer's fixed size in bytes.
pub const FOOTER_SIZE: usize = 24;

/// The 24-byte footer: index offset (8 LE), index length (4 LE), version
/// (4 LE), magic (8 LE).
pub open spec fn footer_encode(index_offset: u64, index_len: u32) -> Seq<u8> {
    le64_bytes(index_offset) + le32_bytes(index_len) + le32_bytes(SSTABLE_VERSION) + le64_bytes(
        SSTABLE_MAGIC,
    )
}

/// How a reader reads a table file's skeleton, and the error it reports
/// on each malformed shape.
#[derive(Debug, Clone, Copy, PartialEq, Eq, Structural)]
pub enum SstError {
    /// Shorter than one footer.
    ShortFile,
    /// The trailing magic number is wrong.
    BadMagic,
    /// The version field is not the one version readers accept.
    BadVersion,
    /// The index range runs past the end of the file.
    ShortIndex,
    /// The index block does not decode.
    BadIndex,
    /// A data block's range runs past the end of the file, or is shorter
    /// than its own checksum.
    ShortBlock,
    /// A data block's stored checksum does not match its payload.
    CrcMismatch,
}

/// What opening a file yields: its index entries, or the exact error.
pub open spec fn table_open(b: Seq<u8>) -> Result<Seq<(Seq<u8>, BlockHandle)>, SstError> {
    if b.len() < 24 {
        Err(SstError::ShortFile)
    } else {
        let n = b.len() as int;
        let ioff = le64_val(b.subrange(n - 24, n - 16));
        let ilen = le32_val(b.subrange(n - 16, n - 12));
        let ver = le32_val(b.subrange(n - 12, n - 8));
        let magic = le64_val(b.subrange(n - 8, n));
        if magic != SSTABLE_MAGIC {
            Err(SstError::BadMagic)
        } else if ver != SSTABLE_VERSION {
            Err(SstError::BadVersion)
        } else if ioff + ilen > b.len() {
            Err(SstError::ShortIndex)
        } else {
            match index_parse(b.subrange(ioff, ioff + ilen)) {
                Some(ix) => Ok(ix),
                None => Err(SstError::BadIndex),
            }
        }
    }
}

/// The index of a file that opens.
pub open spec fn table_index_of(b: Seq<u8>) -> Option<Seq<(Seq<u8>, BlockHandle)>> {
    match table_open(b) {
        Ok(ix) => Some(ix),
        Err(_) => None,
    }
}

/// A block's payload bytes, without its trailing checksum.
pub open spec fn block_payload_at(b: Seq<u8>, h: BlockHandle) -> Seq<u8> {
    b.subrange(h.offset as int, h.offset + h.length - 4)
}

/// A block's stored checksum.
pub open spec fn block_crc_at(b: Seq<u8>, h: BlockHandle) -> int {
    le32_val(b.subrange(h.offset + h.length - 4, h.offset + h.length))
}

/// The records a block holds.
pub open spec fn block_records_at(b: Seq<u8>, h: BlockHandle) -> Seq<(Seq<u8>, EntrySpec)> {
    records_parse(block_payload_at(b, h), 0)
}

/// One index entry points at a checksummed, non-empty block whose largest
/// key is the entry's key.
pub open spec fn entry_ok(b: Seq<u8>, k: Seq<u8>, h: BlockHandle) -> bool {
    &&& h.length >= 4
    &&& h.offset + h.length <= b.len()
    &&& block_crc_at(b, h) == crc32_of(block_payload_at(b, h))
    &&& block_records_at(b, h).len() > 0
    &&& block_records_at(b, h).last().0 == k
}

/// Every index entry of the table is sound.
pub open spec fn table_shape(b: Seq<u8>, ix: Seq<(Seq<u8>, BlockHandle)>) -> bool {
    forall|i: int| 0 <= i < ix.len() ==> entry_ok(b, (#[trigger] ix[i]).0, ix[i].1)
}

/// All records of the table, block by block in index order.
pub open spec fn table_all_records(b: Seq<u8>, ix: Seq<(Seq<u8>, BlockHandle)>) -> Seq<
    (Seq<u8>, EntrySpec),
>
    decreases ix.len(),
{
    if ix.len() == 0 {
        Seq::empty()
    } else {
        block_records_at(b, ix[0].1) + table_all_records(b, ix.drop_first())
    }
}

/// The record sequence a table file denotes; empty if it does not open.
pub open spec fn records_of_table(b: Seq<u8>) -> Seq<(Seq<u8>, EntrySpec)> {
    match table_index_of(b) {
        Some(ix) => table_all_records(b, ix),
        None => Seq::empty(),
    }
}

/// The file opens, its blocks are sound, and its records are in strictly
/// ascending key order: what the builder emits, and what point lookups
/// need to behave like a sorted map.
pub open spec fn table_good(b: Seq<u8>) -> bool {
    &&& table_index_of(b) is Some
    &&& table_shape(b, table_index_of(b).unwrap())
    &&& assoc_sorted(records_of_table(b))
}

/// The last record with the searched key, as the in-block scan reports it.
pub open spec fn records_last_match(rs: Seq<(Seq<u8>, EntrySpec)>, k: Seq<u8>) -> Option<EntrySpec>
    decreases rs.len(),
{
    if rs.len() == 0 {
        None
    } else if rs.last().0 == k {
        Some(rs.last().1)
    } else {
        records_last_match(rs.drop_last(), k)
    }
}

/// What a point lookup on an opened table yields: the handle from the
/// index, the block behind it checked and scanned, with the exact error
/// on each malformed shape.
pub open spec fn table_get(b: Seq<u8>, ix: Seq<(Seq<u8>, BlockHandle)>, k: Seq<u8>) -> Result<
    Option<EntrySpec>,
    SstError,
> {
    match index_find(ix, k) {
        None => Ok(None),
        Some(h) => {
            if h.offset + h.length > b.len() {
                Err(SstError::ShortBlock)
            } else if h.length < 4 {
                Err(SstError::ShortBlock)
            } else if block_crc_at(b, h) != crc32_of(block_payload_at(b, h)) {
                Err(SstError::CrcMismatch)
            } else {
                Ok(records_last_match(block_records_at(b, h), k))
            }
        },
    }
}

// ---------------------------------------------------------------------------
// A well-shaped table answers lookups like its sorted record sequence.
// ---------------------------------------------------------------------------

proof fn lemma_last_match_none(rs: Seq<(Seq<u8>, EntrySpec)>, k: Seq<u8>)
    requires
        forall|j: int| 0 <= j < rs.len() ==> (#[trigger] rs[j]).0 != k,
    ensures
        records_last_match(rs, k) is None,
    decreases rs.len(),
{
    if rs.len() > 0 {
        lemma_last_match_none(rs.drop_last(), k);
    }
}

proof fn lemma_last_match_unique(rs: Seq<(Seq<u8>, EntrySpec)>, k: Seq<u8>, i: int)
    requires
        assoc_sorted(rs),
        0 <= i < rs.len(),
        rs[i].0 == k,
    ensures
        records_last_match(rs, k) == Some(rs[i].1),
    decreases rs.len(),
{
    if i == rs.len() - 1 {
        assert(rs.last() == rs[i]);
    } else {
        assert(lex_lt(rs[i].0, rs.last().0));
        lemma_lex_asymmetric(rs[i].0, rs.last().0);
        assert forall|m: int, j: int| 0 <= m < j < rs.drop_last().len() implies lex_lt(
            (#[trigger] rs.drop_last()[m]).0,
            (#[trigger] rs.drop_last()[j]).0,
        ) by {
            assert(rs.drop_last()[m] == rs[m] && rs.drop_last()[j] == rs[j]);
        }
        assert(rs.drop_last()[i] == rs[i]);
        lemma_last_match_unique(rs.drop_last(), k, i);
    }
}

/// In a sorted block the last match is the unique match.
pub proof fn lemma_last_match_sorted(rs: Seq<(Seq<u8>, EntrySpec)>, k: Seq<u8>)
    requires
        assoc_sorted(rs),
    ensures
        records_last_match(rs, k) == assoc_get(rs, k),
{
    let found = exists|i: int| 0 <= i < rs.len() && (#[trigger] rs[i]).0 == k;
    if found {
        let i = choose|i: int| 0 <= i < rs.len() && (#[trigger] rs[i]).0 == k;
        lemma_last_match_unique(rs, k, i);
        assert forall|j: int| 0 <= j < i implies (#[trigger] rs[j]).0 != k by {
            lemma_lex_asymmetric(rs[j].0, rs[i].0);
        }
        crate::memtable::lemma_assoc_get_index(rs, k, i);
    } else {
        lemma_last_match_none(rs, k);
        lemma_assoc_get_none(rs, k);
    }
}

/// Lookup in a concatenation: a hit in the front decides.
proof fn lemma_assoc_get_concat(xs: Seq<(Seq<u8>, EntrySpec)>, ys: Seq<(Seq<u8>, EntrySpec)>, k: Seq<u8>)
    ensures
        assoc_get(xs + ys, k) == match assoc_get(xs, k) {
            Some(e) => Some(e),
            None => assoc_get(ys, k),
        },
    decreases xs.len(),
{
    if xs.len() == 0 {
        assert(xs + ys =~= ys);
    } else {
        assert((xs + ys)[0] == xs[0]);
        assert((xs + ys).drop_first() =~= xs.drop_first() + ys);
        lemma_assoc_get_concat(xs.drop_first(), ys, k);
    }
}

/// Each key of a sorted sequence is at most the last key.
proof fn lemma_sorted_key_le_last(rs: Seq<(Seq<u8>, EntrySpec)>, j: int)
    requires
        assoc_sorted(rs),
        0 <= j < rs.len(),
    ensures
        rs[j].0 == rs.last().0 || lex_lt(rs[j].0, rs.last().0),
{
    if j < rs.len() - 1 {
        assert(lex_lt(rs[j].0, rs[rs.len() - 1].0));
    }
}

/// The partition lemma: on a well-shaped table whose records are sorted,
/// the index walk plus in-block scan equals a lookup in the whole record
/// sequence.
pub proof fn lemma_table_get_is_assoc_get(
    b: Seq<u8>,
    ix: Seq<(Seq<u8>, BlockHandle)>,
    k: Seq<u8>,
)
    requires
        table_shape(b, ix),
        assoc_sorted(table_all_records(b, ix)),
    ensures
        table_get(b, ix, k) == Ok::<Option<EntrySpec>, SstError>(
            assoc_get(table_all_records(b, ix), k),
        ),
    decreases ix.len(),
{
    let all = table_all_records(b, ix);
    if ix.len() == 0 {
    } else {
        let h = ix[0].1;
        let recs0 = block_records_at(b, h);
        let rest = table_all_records(b, ix.drop_first());
        assert(entry_ok(b, ix[0].0, h));
        assert(all == recs0 + rest);
        assert forall|m: int, j: int| 0 <= m < j < recs0.len() implies lex_lt(
            (#[trigger] recs0[m]).0,
            (#[trigger] recs0[j]).0,
        ) by {
            assert(all[m] == recs0[m] && all[j] == recs0[j]);
        }
        lemma_assoc_get_concat(recs0, rest, k);
        if !lex_lt(ix[0].0, k) {
            // The first block decides.
            assert(index_find(ix, k) == Some(h));
            lemma_last_match_sorted(recs0, k);
            match assoc_get(recs0, k) {
                Some(_) => {},
                None => {
                    // k is at most the block's largest key, and every later
                    // record is strictly greater, so k is nowhere behind.
                    assert forall|j: int| 0 <= j < rest.len() implies (#[trigger] rest[j]).0
                        != k by {
                        assert(all[recs0.len() + j] == rest[j]);
                        assert(lex_lt(all[recs0.len() - 1].0, all[recs0.len() + j].0));
                        assert(all[recs0.len() - 1] == recs0.last());
                        crate::wire::lemma_lex_connected(ix[0].0, k);
                        if rest[j].0 == k {
                            if ix[0].0 == k {
                                lemma_lex_asymmetric(recs0.last().0, rest[j].0);
                            } else {
                                crate::wire::lemma_lex_transitive(k, recs0.last().0, rest[j].0);
                                lemma_lex_asymmetric(k, rest[j].0);
                            }
                        }
                    }
                    lemma_assoc_get_none(rest, k);
                },
            }
        } else {
            // Every key in the first block is below k; the tail decides.
            assert forall|j: int| 0 <= j < recs0.len() implies (#[trigger] recs0[j]).0 != k by {
                lemma_sorted_key_le_last_front(all, recs0.len() as int, j);
                assert(recs0.last().0 == ix[0].0);
                if recs0[j].0 == k {
                    if recs0[j].0 == recs0.last().0 {
                        lemma_lex_asymmetric(ix[0].0, k);
                    } else {
                        assert(lex_lt(recs0[j].0, recs0.last().0));
                        crate::wire::lemma_lex_transitive(k, recs0.last().0, k);
                        lemma_lex_asymmetric(k, k);
                    }
                }
            }
            lemma_assoc_get_none(recs0, k);
            assert forall|i: int| 0 <= i < ix.drop_first().len() implies entry_ok(
                b,
                (#[trigger] ix.drop_first()[i]).0,
                ix.drop_first()[i].1,
            ) by {
                assert(ix.drop_first()[i] == ix[i + 1]);
            }
            assert forall|m: int, j: int| 0 <= m < j < rest.len() implies lex_lt(
                (#[trigger] rest[m]).0,
                (#[trigger] rest[j]).0,
            ) by {
                assert(all[recs0.len() + m] == rest[m] && all[recs0.len() + j] == rest[j]);
            }
            lemma_table_get_is_assoc_get(b, ix.drop_first(), k);
        }
    }
}

/// Within the front segment of a sorted concatenation, every key is at
/// most the segment's last key.
proof fn lemma_sorted_key_le_last_front(all: Seq<(Seq<u8>, EntrySpec)>, front: int, j: int)
    requires
        assoc_sorted(all),
        0 < front <= all.len(),
        0 <= j < front,
    ensures
        all[j].0 == all[front - 1].0 || lex_lt(all[j].0, all[front - 1].0),
{
    if j < front - 1 {
        assert(lex_lt(all[j].0, all[front - 1].0));
    }
}

} // verus!
