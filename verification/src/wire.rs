//! Byte-level building blocks shared by the storage formats: fixed-width
//! big- and little-endian integer fields, and the lexicographic order on
//! byte strings that keys are sorted by.

use vstd::prelude::*;

verus! {

// ---------------------------------------------------------------------------
// Fixed-width integer fields.
// ---------------------------------------------------------------------------

/// The value of a 4-byte big-endian field.
pub open spec fn be32_val(b: Seq<u8>) -> int
    recommends
        b.len() == 4,
{
    b[0] * 0x1000000 + b[1] * 0x10000 + b[2] * 0x100 + b[3]
}

/// The 4-byte big-endian encoding of a 32-bit value.
pub open spec fn be32_bytes(x: u32) -> Seq<u8> {
    seq![
        (x / 0x1000000 % 0x100) as u8,
        (x / 0x10000 % 0x100) as u8,
        (x / 0x100 % 0x100) as u8,
        (x % 0x100) as u8,
    ]
}

pub proof fn lemma_be32_roundtrip(x: u32)
    ensures
        be32_val(be32_bytes(x)) == x,
{
    assert(be32_val(be32_bytes(x)) == x) by (bit_vector);
}

/// Appends the 4-byte big-endian encoding of `x`.
pub fn push_be32(out: &mut Vec<u8>, x: u32)
    ensures
        final(out)@ == old(out)@ + be32_bytes(x),
{
    out.push((x / 0x1000000 % 0x100) as u8);
    out.push((x / 0x10000 % 0x100) as u8);
    out.push((x / 0x100 % 0x100) as u8);
    out.push((x % 0x100) as u8);
    assert(out@ =~= old(out)@ + be32_bytes(x));
}

/// Reads the 4-byte big-endian field at `off`.
pub fn read_be32(b: &[u8], off: usize) -> (r: u32)
    requires
        off + 4 <= b@.len(),
    ensures
        r == be32_val(b@.subrange(off as int, off + 4)),
{
    let n: usize = b.len();
    let r: u32 = (b[off] as u32) * 0x1000000 + (b[off + 1] as u32) * 0x10000
        + (b[off + 2] as u32) * 0x100 + (b[off + 3] as u32);
    proof {
        let s = b@.subrange(off as int, off + 4);
        assert(s[0] == b@[off as int]);
        assert(s[1] == b@[off as int + 1]);
        assert(s[2] == b@[off as int + 2]);
        assert(s[3] == b@[off as int + 3]);
    }
    r
}

/// The value of an 8-byte big-endian field.
pub open spec fn be64_val(b: Seq<u8>) -> int
    recommends
        b.len() == 8,
{
    b[0] * 0x100000000000000 + b[1] * 0x1000000000000 + b[2] * 0x10000000000 + b[3] * 0x100000000
        + b[4] * 0x1000000 + b[5] * 0x10000 + b[6] * 0x100 + b[7]
}

/// The 8-byte big-endian encoding of a 64-bit value.
pub open spec fn be64_bytes(x: u64) -> Seq<u8> {
    seq![
        (x / 0x100000000000000 % 0x100) as u8,
        (x / 0x1000000000000 % 0x100) as u8,
        (x / 0x10000000000 % 0x100) as u8,
        (x / 0x100000000 % 0x100) as u8,
        (x / 0x1000000 % 0x100) as u8,
        (x / 0x10000 % 0x100) as u8,
        (x / 0x100 % 0x100) as u8,
        (x % 0x100) as u8,
    ]
}

pub proof fn lemma_be64_roundtrip(x: u64)
    ensures
        be64_val(be64_bytes(x)) == x,
{
    assert(be64_val(be64_bytes(x)) == x) by (bit_vector);
}

/// Appends the 8-byte big-endian encoding of `x`.
pub fn push_be64(out: &mut Vec<u8>, x: u64)
    ensures
        final(out)@ == old(out)@ + be64_bytes(x),
{
    out.push((x / 0x100000000000000 % 0x100) as u8);
    out.push((x / 0x1000000000000 % 0x100) as u8);
    out.push((x / 0x10000000000 % 0x100) as u8);
    out.push((x / 0x100000000 % 0x100) as u8);
    out.push((x / 0x1000000 % 0x100) as u8);
    out.push((x / 0x10000 % 0x100) as u8);
    out.push((x / 0x100 % 0x100) as u8);
    out.push((x % 0x100) as u8);
    assert(out@ =~= old(out)@ + be64_bytes(x));
}

/// Reads the 8-byte big-endian field at `off`.
pub fn read_be64(b: &[u8], off: usize) -> (r: u64)
    requires
        off + 8 <= b@.len(),
    ensures
        r == be64_val(b@.subrange(off as int, off + 8)),
{
    let n: usize = b.len();
    let r: u64 = (b[off] as u64) * 0x100000000000000 + (b[off + 1] as u64) * 0x1000000000000
        + (b[off + 2] as u64) * 0x10000000000 + (b[off + 3] as u64) * 0x100000000 + (b[off + 4] as u64) * 0x1000000
        + (b[off + 5] as u64) * 0x10000 + (b[off + 6] as u64) * 0x100 + (b[off + 7] as u64);
    proof {
        let s = b@.subrange(off as int, off + 8);
        assert(s[0] == b@[off as int]);
        assert(s[1] == b@[off as int + 1]);
        assert(s[2] == b@[off as int + 2]);
        assert(s[3] == b@[off as int + 3]);
        assert(s[4] == b@[off as int + 4]);
        assert(s[5] == b@[off as int + 5]);
        assert(s[6] == b@[off as int + 6]);
        assert(s[7] == b@[off as int + 7]);
    }
    r
}

/// The value of a 4-byte little-endian field.
pub open spec fn le32_val(b: Seq<u8>) -> int
    recommends
        b.len() == 4,
{
    b[3] * 0x1000000 + b[2] * 0x10000 + b[1] * 0x100 + b[0]
}

/// The 4-byte little-endian encoding of a 32-bit value.
pub open spec fn le32_bytes(x: u32) -> Seq<u8> {
    seq![
        (x % 0x100) as u8,
        (x / 0x100 % 0x100) as u8,
        (x / 0x10000 % 0x100) as u8,
        (x / 0x1000000 % 0x100) as u8,
    ]
}

pub proof fn lemma_le32_roundtrip(x: u32)
    ensures
        le32_val(le32_bytes(x)) == x,
{
    assert(le32_val(le32_bytes(x)) == x) by (bit_vector);
}

/// Appends the 4-byte little-endian encoding of `x`.
pub fn push_le32(out: &mut Vec<u8>, x: u32)
    ensures
        final(out)@ == old(out)@ + le32_bytes(x),
{
    out.push((x % 0x100) as u8);
    out.push((x / 0x100 % 0x100) as u8);
    out.push((x / 0x10000 % 0x100) as u8);
    out.push((x / 0x1000000 % 0x100) as u8);
    assert(out@ =~= old(out)@ + le32_bytes(x));
}

/// Reads the 4-byte little-endian field at `off`.
pub fn read_le32(b: &[u8], off: usize) -> (r: u32)
    requires
        off + 4 <= b@.len(),
    ensures
        r == le32_val(b@.subrange(off as int, off + 4)),
{
    let n: usize = b.len();
    let r: u32 = (b[off + 3] as u32) * 0x1000000 + (b[off + 2] as u32) * 0x10000
        + (b[off + 1] as u32) * 0x100 + (b[off] as u32);
    proof {
        let s = b@.subrange(off as int, off + 4);
        assert(s[0] == b@[off as int]);
        assert(s[1] == b@[off as int + 1]);
        assert(s[2] == b@[off as int + 2]);
        assert(s[3] == b@[off as int + 3]);
    }
    r
}

/// The value of an 8-byte little-endian field.
pub open spec fn le64_val(b: Seq<u8>) -> int
    recommends
        b.len() == 8,
{
    b[7] * 0x100000000000000 + b[6] * 0x1000000000000 + b[5] * 0x10000000000 + b[4] * 0x100000000
        + b[3] * 0x1000000 + b[2] * 0x10000 + b[1] * 0x100 + b[0]
}

/// The 8-byte little-endian encoding of a 64-bit value.
pub open spec fn le64_bytes(x: u64) -> Seq<u8> {
    seq![
        (x % 0x100) as u8,
        (x / 0x100 % 0x100) as u8,
        (x / 0x10000 % 0x100) as u8,
        (x / 0x1000000 % 0x100) as u8,
        (x / 0x100000000 % 0x100) as u8,
        (x / 0x10000000000 % 0x100) as u8,
        (x / 0x1000000000000 % 0x100) as u8,
        (x / 0x100000000000000 % 0x100) as u8,
    ]
}

pub proof fn lemma_le64_roundtrip(x: u64)
    ensures
        le64_val(le64_bytes(x)) == x,
{
    assert(le64_val(le64_bytes(x)) == x) by (bit_vector);
}

/// Appends the 8-byte little-endian encoding of `x`.
pub fn push_le64(out: &mut Vec<u8>, x: u64)
    ensures
        final(out)@ == old(out)@ + le64_bytes(x),
{
    out.push((x % 0x100) as u8);
    out.push((x / 0x100 % 0x100) as u8);
    out.push((x / 0x10000 % 0x100) as u8);
    out.push((x / 0x1000000 % 0x100) as u8);
    out.push((x / 0x100000000 % 0x100) as u8);
    out.push((x / 0x10000000000 % 0x100) as u8);
    out.push((x / 0x1000000000000 % 0x100) as u8);
    out.push((x / 0x100000000000000 % 0x100) as u8);
    assert(out@ =~= old(out)@ + le64_bytes(x));
}

/// Reads the 8-byte little-endian field at `off`.
pub fn read_le64(b: &[u8], off: usize) -> (r: u64)
    requires
        off + 8 <= b@.len(),
    ensures
        r == le64_val(b@.subrange(off as int, off + 8)),
{
    let n: usize = b.len();
    let r: u64 = (b[off + 7] as u64) * 0x100000000000000 + (b[off + 6] as u64) * 0x1000000000000
        + (b[off + 5] as u64) * 0x10000000000 + (b[off + 4] as u64) * 0x100000000
        + (b[off + 3] as u64) * 0x1000000 + (b[off + 2] as u64) * 0x10000
        + (b[off + 1] as u64) * 0x100 + (b[off] as u64);
    proof {
        let s = b@.subrange(off as int, off + 8);
        assert(s[0] == b@[off as int]);
        assert(s[1] == b@[off as int + 1]);
        assert(s[2] == b@[off as int + 2]);
        assert(s[3] == b@[off as int + 3]);
        assert(s[4] == b@[off as int + 4]);
        assert(s[5] == b@[off as int + 5]);
        assert(s[6] == b@[off as int + 6]);
        assert(s[7] == b@[off as int + 7]);
    }
    r
}

/// A 4-byte big-endian field holds less than `2^32`.
pub proof fn lemma_be32_bytes_bound(b: Seq<u8>)
    requires
        b.len() == 4,
    ensures
        0 <= be32_val(b) < 0x100000000,
{
}

/// Any 4-byte big-endian window of a byte string is bounded likewise.
pub proof fn lemma_be32_bytes_bound_any(b: Seq<u8>)
    ensures
        forall|i: int|
            0 <= i && i + 4 <= b.len() ==> 0 <= #[trigger] be32_val(b.subrange(i, i + 4))
                < 0x100000000,
{
    assert forall|i: int| 0 <= i && i + 4 <= b.len() implies 0 <= #[trigger] be32_val(
        b.subrange(i, i + 4),
    ) < 0x100000000 by {
        lemma_be32_bytes_bound(b.subrange(i, i + 4));
    }
}

/// Copies a byte slice into a fresh vector.
pub fn copy_bytes(b: &[u8]) -> (r: Vec<u8>)
    ensures
        r@ == b@,
{
    let n = b.len();
    let mut out: Vec<u8> = Vec::new();
    let mut i: usize = 0;
    while i < n
        invariant
            i <= n,
            n == b@.len(),
            out@ == b@.subrange(0, i as int),
        decreases n - i,
    {
        out.push(b[i]);
        assert(out@ =~= b@.subrange(0, i + 1));
        i = i + 1;
    }
    assert(out@ =~= b@);
    out
}

/// Appends a whole byte slice.
pub fn push_bytes(out: &mut Vec<u8>, b: &[u8])
    ensures
        final(out)@ == old(out)@ + b@,
{
    let n = b.len();
    let mut i: usize = 0;
    while i < n
        invariant
            i <= n,
            n == b@.len(),
            out@ == old(out)@ + b@.subrange(0, i as int),
        decreases n - i,
    {
        out.push(b[i]);
        assert(out@ =~= old(out)@ + b@.subrange(0, i + 1));
        i = i + 1;
    }
    assert(out@ =~= old(out)@ + b@);
}

// ---------------------------------------------------------------------------
// Lexicographic order on byte strings.
// ---------------------------------------------------------------------------

/// Strict lexicographic order by unsigned byte value: the order keys are
/// sorted by throughout the store.
pub open spec fn lex_lt(a: Seq<u8>, b: Seq<u8>) -> bool
    decreases a.len(),
{
    if b.len() == 0 {
        false
    } else if a.len() == 0 {
        true
    } else if a[0] < b[0] {
        true
    } else if a[0] > b[0] {
        false
    } else {
        lex_lt(a.drop_first(), b.drop_first())
    }
}

pub proof fn lemma_lex_asymmetric(a: Seq<u8>, b: Seq<u8>)
    ensures
        lex_lt(a, b) ==> !lex_lt(b, a),
        lex_lt(a, b) ==> a != b,
    decreases a.len(),
{
    if a.len() > 0 && b.len() > 0 && a[0] == b[0] {
        lemma_lex_asymmetric(a.drop_first(), b.drop_first());
        if lex_lt(a, b) {
            assert(a.drop_first() != b.drop_first() ==> a != b) by {
                if a == b {
                    assert(a.drop_first() =~= b.drop_first());
                }
            }
        }
    }
}

pub proof fn lemma_lex_connected(a: Seq<u8>, b: Seq<u8>)
    ensures
        !lex_lt(a, b) && !lex_lt(b, a) ==> a == b,
    decreases a.len(),
{
    if a.len() > 0 && b.len() > 0 && a[0] == b[0] {
        lemma_lex_connected(a.drop_first(), b.drop_first());
        if !lex_lt(a, b) && !lex_lt(b, a) {
            assert(a =~= seq![a[0]] + a.drop_first());
            assert(b =~= seq![b[0]] + b.drop_first());
        }
    }
}

pub proof fn lemma_lex_transitive(a: Seq<u8>, b: Seq<u8>, c: Seq<u8>)
    ensures
        lex_lt(a, b) && lex_lt(b, c) ==> lex_lt(a, c),
    decreases a.len(),
{
    if lex_lt(a, b) && lex_lt(b, c) && a.len() > 0 && c.len() > 0 {
        if b.len() > 0 && a[0] == b[0] && b[0] == c[0] {
            lemma_lex_transitive(a.drop_first(), b.drop_first(), c.drop_first());
        }
    }
}

/// Result of comparing two byte strings.
#[derive(Clone, Copy, PartialEq, Eq, Structural, Debug)]
pub enum ByteCmp {
    Less,
    Equal,
    Greater,
}

/// Three-way lexicographic comparison of two byte strings.
pub fn lex_cmp(a: &[u8], b: &[u8]) -> (r: ByteCmp)
    ensures
        r == ByteCmp::Less <==> lex_lt(a@, b@),
        r == ByteCmp::Greater <==> lex_lt(b@, a@),
        r == ByteCmp::Equal <==> a@ == b@,
{
    let alen = a.len();
    let blen = b.len();
    let min: usize = if alen < blen {
        alen
    } else {
        blen
    };
    let mut i: usize = 0;
    while i < min
        invariant
            i <= min,
            min <= a@.len(),
            min <= b@.len(),
            min == if a@.len() < b@.len() {
                a@.len()
            } else {
                b@.len()
            },
            forall|j: int| 0 <= j < i ==> a@[j] == b@[j],
        decreases min - i,
    {
        if a[i] < b[i] {
            proof {
                lemma_lex_from_first_diff(a@, b@, i as int);
                lemma_lex_asymmetric(a@, b@);
            }
            return ByteCmp::Less;
        }
        if a[i] > b[i] {
            proof {
                lemma_lex_from_first_diff(b@, a@, i as int);
                lemma_lex_asymmetric(b@, a@);
            }
            return ByteCmp::Greater;
        }
        i = i + 1;
    }
    if alen < blen {
        proof {
            lemma_lex_from_prefix(a@, b@);
            lemma_lex_asymmetric(a@, b@);
        }
        ByteCmp::Less
    } else if alen > blen {
        proof {
            lemma_lex_from_prefix(b@, a@);
            lemma_lex_asymmetric(b@, a@);
        }
        ByteCmp::Greater
    } else {
        proof {
            assert(a@ =~= b@);
            lemma_lex_asymmetric(a@, b@);
            lemma_lex_asymmetric(b@, a@);
        }
        ByteCmp::Equal
    }
}

/// Bytes agree strictly before `i` and differ in `a`'s favour at `i`.
pub proof fn lemma_lex_from_first_diff(a: Seq<u8>, b: Seq<u8>, i: int)
    requires
        0 <= i < a.len(),
        i < b.len(),
        forall|j: int| 0 <= j < i ==> a[j] == b[j],
        a[i] < b[i],
    ensures
        lex_lt(a, b),
    decreases i,
{
    if i > 0 {
        lemma_lex_from_first_diff(a.drop_first(), b.drop_first(), i - 1);
    }
}

/// A proper prefix is lexicographically smaller.
pub proof fn lemma_lex_from_prefix(a: Seq<u8>, b: Seq<u8>)
    requires
        a.len() < b.len(),
        forall|j: int| 0 <= j < a.len() ==> a[j] == b[j],
    ensures
        lex_lt(a, b),
    decreases a.len(),
{
    if a.len() > 0 {
        lemma_lex_from_prefix(a.drop_first(), b.drop_first());
    }
}

} // verus!
