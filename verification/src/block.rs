//! One data block of a sorted-string table: a concatenation of
//! length-prefixed put and delete records followed by a 4-byte
//! little-endian CRC-32 over the record bytes.

use vstd::prelude::*;

use crate::checksum::{crc32, crc32_of};
use crate::memtable::{Entry, EntrySpec};
use crate::wire::{le32_bytes, le32_val, lemma_le32_roundtrip, push_bytes, push_le32};

verus! {

/// One record on the wire: an operation tag, two 4-byte little-endian
/// lengths, the key, and (for a put) the value.
pub open spec fn record_encode(k: Seq<u8>, e: EntrySpec) -> Seq<u8> {
    match e {
        EntrySpec::Put(v) => seq![0u8] + le32_bytes(k.len() as u32) + le32_bytes(v.len() as u32) + k
            + v,
        EntrySpec::Delete => seq![1u8] + le32_bytes(k.len() as u32) + le32_bytes(0u32) + k,
    }
}

/// A block payload: the records in order.
pub open spec fn records_encode(rs: Seq<(Seq<u8>, EntrySpec)>) -> Seq<u8>
    decreases rs.len(),
{
    if rs.len() == 0 {
        Seq::empty()
    } else {
        record_encode(rs[0].0, rs[0].1) + records_encode(rs.drop_first())
    }
}

/// A whole encoded block: payload, then its CRC.
pub open spec fn block_encode(rs: Seq<(Seq<u8>, EntrySpec)>) -> Seq<u8> {
    records_encode(rs) + le32_bytes(crc32_of(records_encode(rs)))
}

/// The records a greedy scan reads from a payload starting at `i`: it
/// stops at the first short read, and a non-zero tag is a delete.
pub open spec fn records_parse(p: Seq<u8>, i: int) -> Seq<(Seq<u8>, EntrySpec)>
    decreases p.len() - i,
{
    if i < 0 || i + 9 > p.len() {
        Seq::empty()
    } else {
        let op = p[i];
        let klen = le32_val(p.subrange(i + 1, i + 5));
        let vlen = le32_val(p.subrange(i + 5, i + 9));
        if i + 9 + klen > p.len() {
            Seq::empty()
        } else {
            let k = p.subrange(i + 9, i + 9 + klen);
            if op == 0 {
                if i + 9 + klen + vlen > p.len() {
                    Seq::empty()
                } else {
                    seq![(k, EntrySpec::Put(p.subrange(i + 9 + klen, i + 9 + klen + vlen)))]
                        + records_parse(p, i + 9 + klen + vlen)
                }
            } else {
                seq![(k, EntrySpec::Delete)] + records_parse(p, i + 9 + klen)
            }
        }
    }
}

/// Appending one record extends the payload by its encoding.
proof fn lemma_records_encode_push(rs: Seq<(Seq<u8>, EntrySpec)>, k: Seq<u8>, e: EntrySpec)
    ensures
        records_encode(rs.push((k, e))) == records_encode(rs) + record_encode(k, e),
    decreases rs.len(),
{
    if rs.len() == 0 {
        assert(rs.push((k, e))[0] == (k, e));
        assert(rs.push((k, e)).drop_first() =~= Seq::<(Seq<u8>, EntrySpec)>::empty());
        assert(records_encode(rs.push((k, e)).drop_first()) =~= Seq::<u8>::empty());
        assert(records_encode(rs.push((k, e))) =~= records_encode(rs) + record_encode(k, e));
    } else {
        assert(rs.push((k, e))[0] == rs[0]);
        assert(rs.push((k, e)).drop_first() =~= rs.drop_first().push((k, e)));
        lemma_records_encode_push(rs.drop_first(), k, e);
        assert(records_encode(rs.push((k, e))) =~= records_encode(rs) + record_encode(k, e));
    }
}

/// A record encoding takes at least its header's 9 bytes.
pub proof fn lemma_record_encode_len(k: Seq<u8>, e: EntrySpec)
    ensures
        record_encode(k, e).len() == 9 + k.len() + match e {
            EntrySpec::Put(v) => v.len() as int,
            EntrySpec::Delete => 0,
        },
{
}

/// An empty payload holds no records, and vice versa.
pub proof fn lemma_records_encode_empty(rs: Seq<(Seq<u8>, EntrySpec)>)
    ensures
        records_encode(rs).len() == 0 <==> rs.len() == 0,
{
    if rs.len() > 0 {
        lemma_record_encode_len(rs[0].0, rs[0].1);
    }
}

/// A payload parses back to exactly the records it encodes, provided each
/// length fits its 4-byte field.
#[verifier::rlimit(100)]
#[verifier::spinoff_prover]
pub proof fn lemma_records_parse_of_encode(p: Seq<u8>, i: int, rs: Seq<(Seq<u8>, EntrySpec)>)
    requires
        0 <= i <= p.len(),
        p.subrange(i, p.len() as int) == records_encode(rs),
        forall|m: int|
            0 <= m < rs.len() ==> (#[trigger] rs[m]).0.len() < 0x100000000 && (match rs[m].1 {
                EntrySpec::Put(v) => v.len() < 0x100000000,
                EntrySpec::Delete => true,
            }),
    ensures
        records_parse(p, i) == rs,
    decreases rs.len(),
{
    if rs.len() == 0 {
        assert(p.subrange(i, p.len() as int).len() == p.len() - i);
        assert(records_encode(rs).len() == 0);
    } else {
        let tail = p.subrange(i, p.len() as int);
        let k = rs[0].0;
        let e = rs[0].1;
        let enc = record_encode(k, e);
        lemma_record_encode_len(k, e);
        let klen = k.len() as int;
        let vlen: int = match e {
            EntrySpec::Put(v) => v.len() as int,
            EntrySpec::Delete => 0,
        };
        lemma_le32_roundtrip(k.len() as u32);
        assert(tail =~= enc + records_encode(rs.drop_first()));
        assert(p[i] == tail[0]);
        assert(p.subrange(i + 1, i + 5) =~= le32_bytes(k.len() as u32)) by {
            assert forall|m: int| 0 <= m < 4 implies #[trigger] p.subrange(i + 1, i + 5)[m]
                == le32_bytes(k.len() as u32)[m] by {
                assert(p.subrange(i + 1, i + 5)[m] == tail[1 + m]);
            }
        }
        assert(p.subrange(i + 9, i + 9 + klen) =~= k) by {
            assert forall|m: int| 0 <= m < klen implies #[trigger] p.subrange(
                i + 9,
                i + 9 + klen,
            )[m] == k[m] by {
                assert(p.subrange(i + 9, i + 9 + klen)[m] == tail[9 + m]);
            }
        }
        let n = enc.len() as int;
        match e {
            EntrySpec::Put(v) => {
                lemma_le32_roundtrip(v.len() as u32);
                assert(p[i] == 0u8);
                assert(p.subrange(i + 5, i + 9) =~= le32_bytes(v.len() as u32)) by {
                    assert forall|m: int| 0 <= m < 4 implies #[trigger] p.subrange(i + 5, i + 9)[m]
                        == le32_bytes(v.len() as u32)[m] by {
                        assert(p.subrange(i + 5, i + 9)[m] == tail[5 + m]);
                    }
                }
                assert(p.subrange(i + 9 + klen, i + 9 + klen + vlen) =~= v) by {
                    assert forall|m: int| 0 <= m < vlen implies #[trigger] p.subrange(
                        i + 9 + klen,
                        i + 9 + klen + vlen,
                    )[m] == v[m] by {
                        assert(p.subrange(i + 9 + klen, i + 9 + klen + vlen)[m] == tail[9 + klen
                            + m]);
                    }
                }
            },
            EntrySpec::Delete => {
                lemma_le32_roundtrip(0u32);
                assert(p[i] == 1u8);
                assert(p.subrange(i + 5, i + 9) =~= le32_bytes(0u32)) by {
                    assert forall|m: int| 0 <= m < 4 implies #[trigger] p.subrange(i + 5, i + 9)[m]
                        == le32_bytes(0u32)[m] by {
                        assert(p.subrange(i + 5, i + 9)[m] == tail[5 + m]);
                    }
                }
            },
        }
        assert(p.subrange(i + n, p.len() as int) =~= records_encode(rs.drop_first())) by {
            let rest = records_encode(rs.drop_first());
            assert forall|m: int| 0 <= m < rest.len() implies #[trigger] p.subrange(
                i + n,
                p.len() as int,
            )[m] == rest[m] by {
                assert(p.subrange(i + n, p.len() as int)[m] == tail[n + m]);
            }
        }
        lemma_records_parse_of_encode(p, i + n, rs.drop_first());
        assert(records_parse(p, i) =~= rs);
    }
}

/// A payload's length is exactly the byte cost of its records.
pub proof fn lemma_records_encode_len_is_cost(rs: Seq<(Seq<u8>, EntrySpec)>)
    ensures
        records_encode(rs).len() == crate::memtable::cost_sum(rs),
    decreases rs.len(),
{
    if rs.len() > 0 {
        lemma_record_encode_len(rs[0].0, rs[0].1);
        lemma_records_encode_len_is_cost(rs.drop_first());
    }
}

/// A data block under construction: the encoded payload so far, with the
/// records it encodes carried alongside as the model.
pub struct DataBlock {
    buf: Vec<u8>,
    records: Ghost<Seq<(Seq<u8>, EntrySpec)>>,
    block_size: usize,
}

impl DataBlock {
    /// The records appended so far, in order.
    pub closed spec fn view(&self) -> Seq<(Seq<u8>, EntrySpec)> {
        self.records@
    }

    pub closed spec fn wf(&self) -> bool {
        self.buf@ == records_encode(self.records@)
    }

    pub closed spec fn payload_len(&self) -> int {
        self.buf@.len() as int
    }

    pub closed spec fn spec_block_size(&self) -> usize {
        self.block_size
    }

    /// A well-formed block's payload length is the byte cost of its
    /// records.
    pub proof fn lemma_payload_is_cost(&self)
        requires
            self.wf(),
        ensures
            self.payload_len() == crate::memtable::cost_sum(self@),
    {
        lemma_records_encode_len_is_cost(self.records@);
    }

    pub fn new(block_size: usize) -> (r: DataBlock)
        ensures
            r.wf(),
            r@ == Seq::<(Seq<u8>, EntrySpec)>::empty(),
            r.payload_len() == 0,
            r.spec_block_size() == block_size,
    {
        let r = DataBlock { buf: Vec::new(), records: Ghost(Seq::empty()), block_size };
        proof {
            assert(records_encode(r.records@) =~= Seq::<u8>::empty());
        }
        r
    }

    pub fn is_empty(&self) -> (r: bool)
        requires
            self.wf(),
        ensures
            r <==> self@.len() == 0,
    {
        proof {
            lemma_records_encode_empty(self.records@);
        }
        self.buf.len() == 0
    }

    /// Whether appending a record of `incoming` encoded bytes would push
    /// the payload past the target block size.
    pub fn is_full(&self, incoming: usize) -> (r: bool)
        requires
            self.payload_len() + incoming <= usize::MAX,
        ensures
            r <==> self.payload_len() + incoming > self.spec_block_size(),
    {
        self.buf.len() + incoming > self.block_size
    }

    /// Appends one put record.
    pub fn add_put(&mut self, key: &[u8], value: &[u8])
        requires
            old(self).wf(),
            key@.len() < 0x100000000,
            value@.len() < 0x100000000,
            old(self).payload_len() + 9 + key@.len() + value@.len() <= usize::MAX,
        ensures
            final(self).wf(),
            final(self)@ == old(self)@.push((key@, EntrySpec::Put(value@))),
            final(self).payload_len() == old(self).payload_len() + 9 + key@.len() + value@.len(),
            final(self).spec_block_size() == old(self).spec_block_size(),
    {
        self.buf.push(0u8);
        push_le32(&mut self.buf, key.len() as u32);
        push_le32(&mut self.buf, value.len() as u32);
        push_bytes(&mut self.buf, key);
        push_bytes(&mut self.buf, value);
        proof {
            lemma_records_encode_push(self.records@, key@, EntrySpec::Put(value@));
            self.records@ = self.records@.push((key@, EntrySpec::Put(value@)));
            assert(self.buf@ =~= records_encode(self.records@));
        }
    }

    /// Appends one delete record; its value length is written as zero.
    pub fn add_delete(&mut self, key: &[u8])
        requires
            old(self).wf(),
            key@.len() < 0x100000000,
            old(self).payload_len() + 9 + key@.len() <= usize::MAX,
        ensures
            final(self).wf(),
            final(self)@ == old(self)@.push((key@, EntrySpec::Delete)),
            final(self).payload_len() == old(self).payload_len() + 9 + key@.len(),
            final(self).spec_block_size() == old(self).spec_block_size(),
    {
        self.buf.push(1u8);
        push_le32(&mut self.buf, key.len() as u32);
        push_le32(&mut self.buf, 0u32);
        push_bytes(&mut self.buf, key);
        proof {
            lemma_records_encode_push(self.records@, key@, EntrySpec::Delete);
            self.records@ = self.records@.push((key@, EntrySpec::Delete));
            assert(self.buf@ =~= records_encode(self.records@));
        }
    }

    /// Emits the payload followed by its CRC, consuming the block.
    pub fn encode(self) -> (r: Vec<u8>)
        requires
            self.wf(),
            self.payload_len() + 4 <= usize::MAX,
        ensures
            r@ == block_encode(self@),
            r@.len() == self.payload_len() + 4,
    {
        let DataBlock { mut buf, records, block_size: _ } = self;
        let crc = crc32(buf.as_slice());
        push_le32(&mut buf, crc);
        buf
    }
}

} // verus!
