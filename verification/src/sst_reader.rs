//! The sorted-string table reader: validates the footer, loads the index,
//! and answers point lookups by reading one block, checking its checksum
//! and scanning its records. On a well-shaped table the answer is exactly
//! the stored entry for the key.

use vstd::prelude::*;

use crate::block::records_parse;
use crate::checksum::crc32;
use crate::index::{BlockHandle, Index};
use crate::memtable::{Entry, EntrySpec};
use crate::sst_format::{
    block_crc_at, block_payload_at, block_records_at, records_last_match, table_get, table_open,
    SstError, SSTABLE_MAGIC, SSTABLE_VERSION,
};
use crate::wire::{copy_bytes, read_le32, read_le64};

verus! {

/// An opened table: the file image and its decoded index.
#[derive(Debug)]
pub struct SsTableReader {
    data: Vec<u8>,
    index: Index,
}

impl SsTableReader {
    /// The file image.
    pub closed spec fn data_view(&self) -> Seq<u8> {
        self.data@
    }

    /// The decoded index entries.
    pub closed spec fn index_view(&self) -> Seq<(Seq<u8>, BlockHandle)> {
        self.index@
    }

    /// The index is the one the file denotes.
    pub open spec fn wf(&self) -> bool {
        table_open(self.data_view()) == Ok::<Seq<(Seq<u8>, BlockHandle)>, SstError>(
            self.index_view(),
        )
    }

    /// Validates the footer and decodes the index; fails with the exact
    /// error the file's shape dictates.
    pub fn open(data: Vec<u8>) -> (r: Result<SsTableReader, SstError>)
        ensures
            match r {
                Ok(rd) => rd.data_view() == data@ && rd.wf(),
                Err(e) => table_open(data@) == Err::<Seq<(Seq<u8>, BlockHandle)>, SstError>(e),
            },
    {
        let n = data.len();
        if n < 24 {
            return Err(SstError::ShortFile);
        }
        let index_offset = read_le64(data.as_slice(), n - 24);
        let index_len = read_le32(data.as_slice(), n - 16);
        let version = read_le32(data.as_slice(), n - 12);
        let magic = read_le64(data.as_slice(), n - 8);
        if magic != SSTABLE_MAGIC {
            return Err(SstError::BadMagic);
        }
        if version != SSTABLE_VERSION {
            return Err(SstError::BadVersion);
        }
        if index_offset > n as u64 || (index_len as u64) > n as u64 - index_offset {
            return Err(SstError::ShortIndex);
        }
        let ioff = index_offset as usize;
        let ilen = index_len as usize;
        let index = match Index::decode(&data.as_slice()[ioff..ioff + ilen]) {
            Some(ix) => ix,
            None => {
                return Err(SstError::BadIndex);
            },
        };
        Ok(SsTableReader { data, index })
    }

    /// Looks `key` up: the entry stored for it, `None` when this table has
    /// no record of it, or the exact error when the block it would live in
    /// is malformed. A found tombstone is reported as such, not as absence.
    pub fn get(&self, key: &[u8]) -> (r: Result<Option<Entry>, SstError>)
        ensures
            match r {
                Ok(Some(e)) => table_get(self.data_view(), self.index_view(), key@) == Ok::<
                    Option<EntrySpec>,
                    SstError,
                >(Some(e@)),
                Ok(None) => table_get(self.data_view(), self.index_view(), key@) == Ok::<
                    Option<EntrySpec>,
                    SstError,
                >(None),
                Err(e) => table_get(self.data_view(), self.index_view(), key@) == Err::<
                    Option<EntrySpec>,
                    SstError,
                >(e),
            },
    {
        let h = match self.index.find_block(key) {
            Some(h) => h,
            None => {
                return Ok(None);
            },
        };
        let dlen = self.data.len();
        if h.offset > dlen as u64 || (h.length as u64) > dlen as u64 - h.offset {
            return Err(SstError::ShortBlock);
        }
        if h.length < 4 {
            return Err(SstError::ShortBlock);
        }
        let off = h.offset as usize;
        let len = h.length as usize;
        let payload = &self.data.as_slice()[off..off + len - 4];
        let stored = read_le32(self.data.as_slice(), off + len - 4);
        let computed = crc32(payload);
        proof {
            assert(payload@ == block_payload_at(self.data_view(), h));
            assert(self.data_view().subrange(off + len - 4, off as int + len) == self.data_view()
                .subrange(h.offset + h.length - 4, h.offset + h.length));
        }
        if computed != stored {
            return Err(SstError::CrcMismatch);
        }
        let plen = payload.len();
        let ghost total = records_parse(payload@, 0);
        let ghost parsed = Seq::<(Seq<u8>, EntrySpec)>::empty();
        let mut found: Option<Entry> = None;
        let mut i: usize = 0;
        proof {
            assert(records_last_match(parsed, key@) is None);
            assert(block_records_at(self.data_view(), h) == total);
            assert(table_get(self.data_view(), self.index_view(), key@) == Ok::<
                Option<EntrySpec>,
                SstError,
            >(records_last_match(total, key@)));
        }
        while plen - i >= 9
            invariant
                i <= plen,
                plen == payload@.len(),
                payload@ == block_payload_at(self.data_view(), h),
                table_get(self.data_view(), self.index_view(), key@) == Ok::<
                    Option<EntrySpec>,
                    SstError,
                >(records_last_match(total, key@)),
                total == records_parse(payload@, 0),
                total == parsed + records_parse(payload@, i as int),
                match found {
                    Some(e) => records_last_match(parsed, key@) == Some(e@),
                    None => records_last_match(parsed, key@) is None,
                },
            decreases plen - i,
        {
            let op = payload[i];
            let klen = read_le32(payload, i + 1) as usize;
            let vlen = read_le32(payload, i + 5) as usize;
            if plen - (i + 9) < klen {
                proof {
                    assert(records_parse(payload@, i as int) =~= Seq::<
                        (Seq<u8>, EntrySpec),
                    >::empty());
                    assert(total =~= parsed);
                }
                return Ok(found);
            }
            let k = &payload[i + 9..i + 9 + klen];
            let ghost rec: (Seq<u8>, EntrySpec);
            let next: usize;
            if op == 0 {
                if plen - (i + 9 + klen) < vlen {
                    proof {
                        assert(records_parse(payload@, i as int) =~= Seq::<
                            (Seq<u8>, EntrySpec),
                        >::empty());
                        assert(total =~= parsed);
                    }
                    return Ok(found);
                }
                let matches_key = crate::wire::lex_cmp(k, key);
                if matches!(matches_key, crate::wire::ByteCmp::Equal) {
                    let v = copy_bytes(&payload[i + 9 + klen..i + 9 + klen + vlen]);
                    found = Some(Entry::Put(v));
                } else {
                }
                proof {
                    rec = (
                        payload@.subrange(i + 9, i + 9 + klen),
                        EntrySpec::Put(
                            payload@.subrange(i + 9 + klen, i as int + 9 + klen + vlen),
                        ),
                    );
                }
                next = i + 9 + klen + vlen;
            } else {
                let matches_key = crate::wire::lex_cmp(k, key);
                if matches!(matches_key, crate::wire::ByteCmp::Equal) {
                    found = Some(Entry::Delete);
                } else {
                }
                proof {
                    rec = (payload@.subrange(i + 9, i + 9 + klen), EntrySpec::Delete);
                }
                next = i + 9 + klen;
            }
            proof {
                assert(records_parse(payload@, i as int) == seq![rec] + records_parse(
                    payload@,
                    next as int,
                ));
                assert((parsed + records_parse(payload@, i as int)) =~= (parsed.push(rec)
                    + records_parse(payload@, next as int)));
                assert(parsed.push(rec).last() == rec);
                assert(parsed.push(rec).drop_last() =~= parsed);
                parsed = parsed.push(rec);
            }
            i = next;
        }
        proof {
            assert(records_parse(payload@, i as int) =~= Seq::<(Seq<u8>, EntrySpec)>::empty());
            assert(total =~= parsed);
        }
        Ok(found)
    }
}

} // verus!
