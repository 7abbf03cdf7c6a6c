//! The table index: one entry per data block, holding the largest key
//! written into the block and the block's byte range, binary-searchable by
//! a reader (here scanned linearly; entries are few).

use vstd::prelude::*;

use crate::wire::{
    copy_bytes, le32_bytes, le32_val, le64_bytes, le64_val, lemma_le32_roundtrip,
    lemma_le64_roundtrip, lex_cmp, lex_lt, push_bytes, push_le32, push_le64, read_le32, read_le64,
    ByteCmp,
};

verus! {

/// A byte range inside a table file.
#[derive(Debug, Clone, Copy, PartialEq, Eq, Structural)]
pub struct BlockHandle {
    pub offset: u64,
    pub length: u32,
}

/// The handle of the first entry whose last key is not below `k`; `None`
/// when `k` exceeds every entry's last key.
pub open spec fn index_find(s: Seq<(Seq<u8>, BlockHandle)>, k: Seq<u8>) -> Option<BlockHandle>
    decreases s.len(),
{
    if s.len() == 0 {
        None
    } else if !lex_lt(s[0].0, k) {
        Some(s[0].1)
    } else {
        index_find(s.drop_first(), k)
    }
}

pub proof fn lemma_index_find_at(s: Seq<(Seq<u8>, BlockHandle)>, k: Seq<u8>, i: int)
    requires
        0 <= i < s.len(),
        forall|j: int| 0 <= j < i ==> lex_lt((#[trigger] s[j]).0, k),
        !lex_lt(s[i].0, k),
    ensures
        index_find(s, k) == Some(s[i].1),
    decreases i,
{
    if i > 0 {
        lemma_index_find_at(s.drop_first(), k, i - 1);
    }
}

pub proof fn lemma_index_find_none(s: Seq<(Seq<u8>, BlockHandle)>, k: Seq<u8>)
    requires
        forall|j: int| 0 <= j < s.len() ==> lex_lt((#[trigger] s[j]).0, k),
    ensures
        index_find(s, k) is None,
    decreases s.len(),
{
    if s.len() > 0 {
        lemma_index_find_none(s.drop_first(), k);
    }
}

/// One index entry on the wire: key length (4 LE), key, offset (8 LE),
/// block length (4 LE).
pub open spec fn index_entry_encode(k: Seq<u8>, h: BlockHandle) -> Seq<u8> {
    le32_bytes(k.len() as u32) + k + le64_bytes(h.offset) + le32_bytes(h.length)
}

pub open spec fn index_entries_encode(s: Seq<(Seq<u8>, BlockHandle)>) -> Seq<u8>
    decreases s.len(),
{
    if s.len() == 0 {
        Seq::empty()
    } else {
        index_entry_encode(s[0].0, s[0].1) + index_entries_encode(s.drop_first())
    }
}

/// The index block: a 4-byte little-endian count, then the entries.
pub open spec fn index_encode(s: Seq<(Seq<u8>, BlockHandle)>) -> Seq<u8> {
    le32_bytes(s.len() as u32) + index_entries_encode(s)
}

/// The entries a strict decoder reads: `None` on any short read.
pub open spec fn index_parse_items(b: Seq<u8>, i: int, cnt: int) -> Option<
    Seq<(Seq<u8>, BlockHandle)>,
>
    decreases cnt,
{
    if cnt <= 0 {
        Some(Seq::empty())
    } else if i < 0 || i + 4 > b.len() {
        None
    } else {
        let klen = le32_val(b.subrange(i, i + 4));
        if i + 4 + klen + 12 > b.len() {
            None
        } else {
            let k = b.subrange(i + 4, i + 4 + klen);
            let h = BlockHandle {
                offset: le64_val(b.subrange(i + 4 + klen, i + 4 + klen + 8)) as u64,
                length: le32_val(b.subrange(i + 4 + klen + 8, i + 4 + klen + 12)) as u32,
            };
            match index_parse_items(b, i + 4 + klen + 12, cnt - 1) {
                Some(rest) => Some(seq![(k, h)] + rest),
                None => None,
            }
        }
    }
}

/// What an index block decodes to; trailing bytes after the counted
/// entries are ignored.
pub open spec fn index_parse(b: Seq<u8>) -> Option<Seq<(Seq<u8>, BlockHandle)>> {
    if b.len() < 4 {
        None
    } else {
        index_parse_items(b, 4, le32_val(b.subrange(0, 4)))
    }
}

/// The sorted list of (largest key in block, block handle) pairs.
#[derive(Debug)]
pub struct Index {
    entries: Vec<(Vec<u8>, BlockHandle)>,
}

impl View for Index {
    type V = Seq<(Seq<u8>, BlockHandle)>;

    closed spec fn view(&self) -> Seq<(Seq<u8>, BlockHandle)> {
        self.entries@.map_values(|p: (Vec<u8>, BlockHandle)| (p.0@, p.1))
    }
}

impl Index {
    pub fn new() -> (r: Index)
        ensures
            r@ == Seq::<(Seq<u8>, BlockHandle)>::empty(),
    {
        let r = Index { entries: Vec::new() };
        proof {
            assert(r@ =~= Seq::<(Seq<u8>, BlockHandle)>::empty());
        }
        r
    }

    pub fn len(&self) -> (r: usize)
        ensures
            r == self@.len(),
    {
        self.entries.len()
    }

    /// Appends an entry; callers pass keys in ascending order.
    pub fn add(&mut self, k: &[u8], h: BlockHandle)
        ensures
            final(self)@ == old(self)@.push((k@, h)),
    {
        self.entries.push((copy_bytes(k), h));
        proof {
            assert(self@ =~= old(self)@.push((k@, h)));
        }
    }

    /// The handle of the first entry whose last key is not below `k`.
    pub fn find_block(&self, k: &[u8]) -> (r: Option<BlockHandle>)
        ensures
            r == index_find(self@, k@),
    {
        let n = self.entries.len();
        let mut i: usize = 0;
        while i < n
            invariant
                i <= n,
                n == self@.len(),
                forall|j: int| 0 <= j < i ==> lex_lt((#[trigger] self@[j]).0, k@),
            decreases n - i,
        {
            match lex_cmp(self.entries[i].0.as_slice(), k) {
                ByteCmp::Less => {
                    i = i + 1;
                },
                _ => {
                    proof {
                        lemma_index_find_at(self@, k@, i as int);
                    }
                    return Some(self.entries[i].1);
                },
            }
        }
        proof {
            lemma_index_find_none(self@, k@);
        }
        None
    }

    /// Encodes the index block.
    pub fn encode(&self) -> (r: Vec<u8>)
        requires
            self@.len() < 0x100000000,
            forall|m: int| 0 <= m < self@.len() ==> (#[trigger] self@[m]).0.len() < 0x100000000,
        ensures
            r@ == index_encode(self@),
    {
        let n = self.entries.len();
        let mut out: Vec<u8> = Vec::new();
        push_le32(&mut out, n as u32);
        let mut i: usize = 0;
        while i < n
            invariant
                i <= n,
                n == self@.len(),
                n < 0x100000000,
                forall|m: int| 0 <= m < self@.len() ==> (#[trigger] self@[m]).0.len() < 0x100000000,
                out@ == le32_bytes(n as u32) + index_entries_encode(self@.subrange(0, i as int)),
            decreases n - i,
        {
            let e = &self.entries[i];
            push_le32(&mut out, e.0.len() as u32);
            push_bytes(&mut out, e.0.as_slice());
            push_le64(&mut out, e.1.offset);
            push_le32(&mut out, e.1.length);
            proof {
                lemma_index_entries_encode_push(self@.subrange(0, i as int), self@[i as int]);
                assert(self@.subrange(0, i + 1) =~= self@.subrange(0, i as int).push(
                    self@[i as int],
                ));
                assert(out@ =~= le32_bytes(n as u32) + index_entries_encode(
                    self@.subrange(0, i + 1),
                ));
            }
            i = i + 1;
        }
        proof {
            assert(self@.subrange(0, n as int) =~= self@);
        }
        out
    }

    /// Decodes an index block; `None` on a short read.
    pub fn decode(bytes: &[u8]) -> (r: Option<Index>)
        ensures
            match r {
                Some(ix) => index_parse(bytes@) == Some(ix@),
                None => index_parse(bytes@) is None,
            },
    {
        let blen = bytes.len();
        if blen < 4 {
            return None;
        }
        let cnt = read_le32(bytes, 0);
        let mut out = Index::new();
        let mut i: usize = 4;
        let mut j: u32 = 0;
        while j < cnt
            invariant
                4 <= i <= blen,
                blen == bytes@.len(),
                j <= cnt,
                index_parse(bytes@) == index_parse_items(bytes@, 4, cnt as int),
                index_parse_items(bytes@, 4, cnt as int) matches Some(all) ==> (
                index_parse_items(bytes@, i as int, cnt - j) matches Some(rest) && all == out@
                    + rest),
                index_parse_items(bytes@, 4, cnt as int) is None ==> index_parse_items(
                    bytes@,
                    i as int,
                    cnt - j,
                ) is None,
            decreases cnt - j,
        {
            if blen - i < 4 {
                proof {
                    assert(index_parse_items(bytes@, i as int, cnt - j) is None);
                }
                return None;
            }
            let klen = read_le32(bytes, i) as usize;
            if blen - (i + 4) < klen {
                proof {
                    assert(index_parse_items(bytes@, i as int, cnt - j) is None);
                }
                return None;
            }
            if blen - (i + 4 + klen) < 12 {
                proof {
                    assert(index_parse_items(bytes@, i as int, cnt - j) is None);
                }
                return None;
            }
            let k = &bytes[i + 4..i + 4 + klen];
            let offset = read_le64(bytes, i + 4 + klen);
            let length = read_le32(bytes, i + 4 + klen + 8);
            let h = BlockHandle { offset, length };
            let ghost out0 = out@;
            out.add(k, h);
            proof {
                assert(index_parse_items(bytes@, i as int, cnt - j) matches Some(rest0)
                    ==> rest0 == seq![(k@, h)] + index_parse_items(
                    bytes@,
                    i as int + 4 + klen + 12,
                    cnt - j - 1,
                ).unwrap());
                if index_parse_items(bytes@, 4, cnt as int) is Some {
                    let all = index_parse_items(bytes@, 4, cnt as int).unwrap();
                    let rest = index_parse_items(bytes@, i as int, cnt - j).unwrap();
                    let rest2 = index_parse_items(
                        bytes@,
                        i as int + 4 + klen + 12,
                        cnt - j - 1,
                    ).unwrap();
                    assert(all =~= out0 + rest);
                    assert(rest =~= seq![(k@, h)] + rest2);
                    assert(out@ =~= out0.push((k@, h)));
                    assert(all =~= out@ + rest2);
                    assert(out@ =~= all.subrange(0, out@.len() as int));
                }
            }
            i = i + 4 + klen + 12;
            j = j + 1;
        }
        proof {
            if index_parse_items(bytes@, 4, cnt as int) is Some {
                let all = index_parse_items(bytes@, 4, cnt as int).unwrap();
                assert(index_parse_items(bytes@, i as int, 0) == Some(
                    Seq::<(Seq<u8>, BlockHandle)>::empty(),
                ));
                assert(all =~= out@);
            } else {
                assert(index_parse_items(bytes@, i as int, 0) is Some);
                assert(false);
            }
        }
        Some(out)
    }
}

pub proof fn lemma_index_entries_encode_push(s: Seq<(Seq<u8>, BlockHandle)>, x: (Seq<u8>, BlockHandle))
    ensures
        index_entries_encode(s.push(x)) == index_entries_encode(s) + index_entry_encode(x.0, x.1),
    decreases s.len(),
{
    if s.len() == 0 {
        assert(s.push(x)[0] == x);
        assert(s.push(x).drop_first() =~= Seq::<(Seq<u8>, BlockHandle)>::empty());
        assert(index_entries_encode(s.push(x).drop_first()) =~= Seq::<u8>::empty());
        assert(index_entries_encode(s.push(x)) =~= index_entries_encode(s) + index_entry_encode(
            x.0,
            x.1,
        ));
    } else {
        assert(s.push(x)[0] == s[0]);
        assert(s.push(x).drop_first() =~= s.drop_first().push(x));
        lemma_index_entries_encode_push(s.drop_first(), x);
        assert(index_entries_encode(s.push(x)) =~= index_entries_encode(s) + index_entry_encode(
            x.0,
            x.1,
        ));
    }
}

/// An index block parses back to the entries it encodes, provided each
/// key length fits its field; bytes after the window do not disturb it.
#[verifier::rlimit(100)]
#[verifier::spinoff_prover]
pub proof fn lemma_index_parse_items_of_encode(b: Seq<u8>, i: int, s: Seq<(Seq<u8>, BlockHandle)>)
    requires
        0 <= i,
        i + index_entries_encode(s).len() <= b.len(),
        b.subrange(i, i + index_entries_encode(s).len() as int) == index_entries_encode(s),
        forall|m: int| 0 <= m < s.len() ==> (#[trigger] s[m]).0.len() < 0x100000000,
    ensures
        index_parse_items(b, i, s.len() as int) == Some(s),
    decreases s.len(),
{
    if s.len() == 0 {
    } else {
        let full = index_entries_encode(s);
        let whole = b.subrange(i, i + full.len() as int);
        let enc = index_entry_encode(s[0].0, s[0].1);
        let rest_enc = index_entries_encode(s.drop_first());
        let klen = s[0].0.len() as int;
        lemma_le32_roundtrip(s[0].0.len() as u32);
        lemma_le64_roundtrip(s[0].1.offset);
        lemma_le32_roundtrip(s[0].1.length);
        assert(full =~= enc + rest_enc);
        assert(enc.len() == 4 + klen + 12);
        let n = enc.len() as int;
        assert(b.subrange(i, i + 4) =~= le32_bytes(s[0].0.len() as u32)) by {
            assert forall|m: int| 0 <= m < 4 implies #[trigger] b.subrange(i, i + 4)[m]
                == le32_bytes(s[0].0.len() as u32)[m] by {
                assert(b.subrange(i, i + 4)[m] == whole[m]);
            }
        }
        assert(b.subrange(i + 4, i + 4 + klen) =~= s[0].0) by {
            assert forall|m: int| 0 <= m < klen implies #[trigger] b.subrange(
                i + 4,
                i + 4 + klen,
            )[m] == s[0].0[m] by {
                assert(b.subrange(i + 4, i + 4 + klen)[m] == whole[4 + m]);
            }
        }
        assert(b.subrange(i + 4 + klen, i + 4 + klen + 8) =~= le64_bytes(s[0].1.offset)) by {
            assert forall|m: int| 0 <= m < 8 implies #[trigger] b.subrange(
                i + 4 + klen,
                i + 4 + klen + 8,
            )[m] == le64_bytes(s[0].1.offset)[m] by {
                assert(b.subrange(i + 4 + klen, i + 4 + klen + 8)[m] == whole[4 + klen + m]);
            }
        }
        assert(b.subrange(i + 4 + klen + 8, i + 4 + klen + 12) =~= le32_bytes(s[0].1.length)) by {
            assert forall|m: int| 0 <= m < 4 implies #[trigger] b.subrange(
                i + 4 + klen + 8,
                i + 4 + klen + 12,
            )[m] == le32_bytes(s[0].1.length)[m] by {
                assert(b.subrange(i + 4 + klen + 8, i + 4 + klen + 12)[m] == whole[4 + klen + 8
                    + m]);
            }
        }
        assert(b.subrange(i + n, i + n + rest_enc.len() as int) =~= rest_enc) by {
            assert forall|m: int| 0 <= m < rest_enc.len() implies #[trigger] b.subrange(
                i + n,
                i + n + rest_enc.len() as int,
            )[m] == rest_enc[m] by {
                assert(b.subrange(i + n, i + n + rest_enc.len() as int)[m] == whole[n + m]);
            }
        }
        lemma_index_parse_items_of_encode(b, i + n, s.drop_first());
        assert(index_parse_items(b, i, s.len() as int).unwrap() =~= s);
    }
}

/// The whole index block round trip.
pub proof fn lemma_index_parse_of_encode(s: Seq<(Seq<u8>, BlockHandle)>)
    requires
        s.len() < 0x100000000,
        forall|m: int| 0 <= m < s.len() ==> (#[trigger] s[m]).0.len() < 0x100000000,
    ensures
        index_parse(index_encode(s)) == Some(s),
{
    let b = index_encode(s);
    lemma_le32_roundtrip(s.len() as u32);
    assert(b.subrange(0, 4) =~= le32_bytes(s.len() as u32));
    assert(b.len() >= 4);
    assert(le32_val(b.subrange(0, 4)) == s.len());
    assert(b.subrange(4, 4 + index_entries_encode(s).len() as int) =~= index_entries_encode(s));
    lemma_index_parse_items_of_encode(b, 4, s);
}

} // verus!
