//! The grow-only set CRDT: a sorted, deduplicated sequence of byte strings
//! whose merge is set union, with a big-endian length-prefixed codec.

use vstd::prelude::*;

use crate::wire::{
    be32_bytes, be32_val, copy_bytes, lemma_be32_roundtrip, lemma_lex_asymmetric,
    lemma_lex_transitive, lex_cmp, lex_lt, push_be32, push_bytes, read_be32,
    ByteCmp,
};

verus! {

/// Strictly ascending lexicographic order: sorted and free of duplicates.
pub open spec fn elems_sorted(s: Seq<Seq<u8>>) -> bool {
    forall|i: int, j: int| 0 <= i < j < s.len() ==> lex_lt(#[trigger] s[i], #[trigger] s[j])
}

/// Appending an element adds exactly it to the set of elements.
pub proof fn lemma_push_to_set<A>(s: Seq<A>, x: A)
    ensures
        s.push(x).to_set() == s.to_set().insert(x),
{
    assert forall|y: A| #[trigger] s.push(x).contains(y) implies s.to_set().insert(x).contains(
        y,
    ) by {
        let i = choose|i: int| 0 <= i < s.push(x).len() && s.push(x)[i] == y;
        if i < s.len() {
            assert(s[i] == y);
        }
    }
    assert forall|y: A| s.to_set().insert(x).contains(y) implies #[trigger] s.push(x).contains(
        y,
    ) by {
        if s.contains(y) {
            let i = choose|i: int| 0 <= i < s.len() && s[i] == y;
            assert(s.push(x)[i] == y);
        } else {
            assert(s.push(x)[s.len() as int] == y);
        }
    }
    assert(s.push(x).to_set() =~= s.to_set().insert(x));
}

/// A sorted, duplicate-free sequence is determined by its set of elements:
/// the representation is canonical.
pub proof fn lemma_sorted_canonical(a: Seq<Seq<u8>>, b: Seq<Seq<u8>>)
    requires
        elems_sorted(a),
        elems_sorted(b),
        a.to_set() == b.to_set(),
    ensures
        a == b,
    decreases a.len(),
{
    if a.len() == 0 {
        if b.len() > 0 {
            assert(b.contains(b[0]));
            assert(b.to_set().contains(b[0]));
            assert(a.to_set().contains(b[0]));
            assert(a.contains(b[0]));
        }
        assert(a =~= b);
    } else {
        assert(a.contains(a[0]));
        assert(a.to_set().contains(a[0]));
        assert(b.to_set().contains(a[0]));
        assert(b.contains(a[0]));
        let jb = choose|j: int| 0 <= j < b.len() && b[j] == a[0];
        assert(b.contains(b[0]));
        assert(b.to_set().contains(b[0]));
        assert(a.to_set().contains(b[0]));
        assert(a.contains(b[0]));
        let ja = choose|j: int| 0 <= j < a.len() && a[j] == b[0];
        // Heads are both minimal, so they are equal.
        if a[0] != b[0] {
            assert(ja > 0);
            assert(lex_lt(a[0], a[ja]));
            assert(jb > 0);
            assert(lex_lt(b[0], b[jb]));
            lemma_lex_asymmetric(a[0], b[0]);
        }
        // The tails hold the same elements.
        let at = a.drop_first();
        let bt = b.drop_first();
        assert forall|x: Seq<u8>| at.contains(x) implies bt.contains(x) by {
            let i = choose|i: int| 0 <= i < at.len() && at[i] == x;
            assert(a[i + 1] == x);
            assert(lex_lt(a[0], x));
            assert(a.contains(x));
            assert(a.to_set().contains(x));
            assert(b.to_set().contains(x));
            assert(b.contains(x));
            let j = choose|j: int| 0 <= j < b.len() && b[j] == x;
            lemma_lex_asymmetric(b[0], x);
            assert(j != 0);
            assert(bt[j - 1] == x);
        }
        assert forall|x: Seq<u8>| bt.contains(x) implies at.contains(x) by {
            let i = choose|i: int| 0 <= i < bt.len() && bt[i] == x;
            assert(b[i + 1] == x);
            assert(lex_lt(b[0], x));
            assert(b.contains(x));
            assert(b.to_set().contains(x));
            assert(a.to_set().contains(x));
            assert(a.contains(x));
            let j = choose|j: int| 0 <= j < a.len() && a[j] == x;
            lemma_lex_asymmetric(a[0], x);
            assert(j != 0);
            assert(at[j - 1] == x);
        }
        assert(at.to_set() =~= bt.to_set());
        assert forall|i: int, j: int| 0 <= i < j < at.len() implies lex_lt(
            #[trigger] at[i],
            #[trigger] at[j],
        ) by {
            assert(a[i + 1] == at[i] && a[j + 1] == at[j]);
        }
        assert forall|i: int, j: int| 0 <= i < j < bt.len() implies lex_lt(
            #[trigger] bt[i],
            #[trigger] bt[j],
        ) by {
            assert(b[i + 1] == bt[i] && b[j + 1] == bt[j]);
        }
        lemma_sorted_canonical(at, bt);
        assert(a.len() == b.len());
        assert forall|i: int| 0 <= i < a.len() implies a[i] == b[i] by {
            if i > 0 {
                assert(at[i - 1] == a[i]);
                assert(bt[i - 1] == b[i]);
            }
        }
        assert(a =~= b);
    }
}

/// The grow-only set: a sorted unique sequence of byte strings.
#[derive(Debug)]
pub struct GSet {
    elems: Vec<Vec<u8>>,
}

impl View for GSet {
    type V = Seq<Seq<u8>>;

    closed spec fn view(&self) -> Seq<Seq<u8>> {
        self.elems@.map_values(|e: Vec<u8>| e@)
    }
}

impl GSet {
    pub open spec fn wf(&self) -> bool {
        elems_sorted(self@)
    }

    pub fn new() -> (r: GSet)
        ensures
            r.wf(),
            r@ == Seq::<Seq<u8>>::empty(),
    {
        let r = GSet { elems: Vec::new() };
        proof {
            assert(r@ =~= Seq::<Seq<u8>>::empty());
        }
        r
    }

    pub fn len(&self) -> (r: usize)
        ensures
            r == self@.len(),
    {
        self.elems.len()
    }

    /// Index of `k`, or of the first greater element.
    fn locate(&self, k: &[u8]) -> (r: (usize, bool))
        requires
            self.wf(),
        ensures
            r.0 <= self@.len(),
            forall|j: int| 0 <= j < r.0 ==> lex_lt(#[trigger] self@[j], k@),
            r.1 ==> r.0 < self@.len() && self@[r.0 as int] == k@,
            !r.1 ==> r.0 == self@.len() || lex_lt(k@, self@[r.0 as int]),
    {
        let n = self.elems.len();
        let mut i: usize = 0;
        while i < n
            invariant
                self.wf(),
                i <= n,
                n == self@.len(),
                forall|j: int| 0 <= j < i ==> lex_lt(#[trigger] self@[j], k@),
            decreases n - i,
        {
            match lex_cmp(self.elems[i].as_slice(), k) {
                ByteCmp::Less => {
                    i = i + 1;
                },
                ByteCmp::Equal => {
                    return (i, true);
                },
                ByteCmp::Greater => {
                    return (i, false);
                },
            }
        }
        (n, false)
    }

    pub fn contains(&self, k: &[u8]) -> (r: bool)
        requires
            self.wf(),
        ensures
            r <==> self@.contains(k@),
    {
        let (idx, found) = self.locate(k);
        proof {
            if found {
                assert(self@.contains(k@));
            } else {
                assert forall|j: int| 0 <= j < self@.len() implies self@[j] != k@ by {
                    if j < idx {
                        lemma_lex_asymmetric(self@[j], k@);
                    } else if idx < self@.len() {
                        if j > idx {
                            lemma_lex_transitive(k@, self@[idx as int], self@[j]);
                        }
                        lemma_lex_asymmetric(k@, self@[j]);
                    }
                }
            }
        }
        found
    }

    /// Ordered insertion preserving sort and uniqueness: afterwards the set
    /// of elements is the old set plus `k`.
    pub fn insert(&mut self, k: Vec<u8>)
        requires
            old(self).wf(),
        ensures
            final(self).wf(),
            final(self)@.to_set() == old(self)@.to_set().insert(k@),
            final(self)@.len() <= old(self)@.len() + 1,
    {
        let ghost s0 = self@;
        let (idx, found) = self.locate(k.as_slice());
        if found {
            proof {
                assert(s0.contains(k@));
                assert(s0.to_set() =~= s0.to_set().insert(k@));
            }
        } else {
            self.elems.insert(idx, k);
            proof {
                assert(self@ =~= s0.insert(idx as int, k@));
                let t = self@;
                assert forall|i: int, j: int| 0 <= i < j < t.len() implies lex_lt(
                    #[trigger] t[i],
                    #[trigger] t[j],
                ) by {
                    if j < idx {
                        assert(t[i] == s0[i] && t[j] == s0[j]);
                    } else if i > idx {
                        assert(t[i] == s0[i - 1] && t[j] == s0[j - 1]);
                    } else if i < idx && j == idx {
                        assert(t[i] == s0[i]);
                    } else if i == idx && j > idx {
                        assert(t[j] == s0[j - 1]);
                        assert(idx < s0.len() ==> lex_lt(k@, s0[idx as int]));
                        if j - 1 > idx {
                            lemma_lex_transitive(k@, s0[idx as int], s0[j - 1]);
                        }
                    } else if i < idx && j > idx {
                        assert(t[i] == s0[i] && t[j] == s0[j - 1]);
                    }
                }
                assert forall|x: Seq<u8>| t.contains(x) implies s0.contains(x) || x == k@ by {
                    let i = choose|i: int| 0 <= i < t.len() && t[i] == x;
                    if i < idx {
                        assert(s0[i] == x);
                    } else if i > idx {
                        assert(s0[i - 1] == x);
                    }
                }
                assert forall|x: Seq<u8>| s0.contains(x) implies t.contains(x) by {
                    let i = choose|i: int| 0 <= i < s0.len() && s0[i] == x;
                    if i < idx {
                        assert(t[i] == x);
                    } else {
                        assert(t[i + 1] == x);
                    }
                }
                assert(t[idx as int] == k@);
                assert(t.contains(k@));
                assert(t.to_set() =~= s0.to_set().insert(k@));
            }
        }
    }

    /// A copy of the elements, in ascending order.
    pub fn elements(&self) -> (r: Vec<Vec<u8>>)
        ensures
            r@.map_values(|e: Vec<u8>| e@) == self@,
    {
        let n = self.elems.len();
        let mut out: Vec<Vec<u8>> = Vec::new();
        let mut i: usize = 0;
        while i < n
            invariant
                i <= n,
                n == self.elems@.len(),
                out@.map_values(|e: Vec<u8>| e@) == self@.subrange(0, i as int),
            decreases n - i,
        {
            let ghost before = out@.map_values(|e: Vec<u8>| e@);
            out.push(copy_bytes(self.elems[i].as_slice()));
            proof {
                let now = out@.map_values(|e: Vec<u8>| e@);
                assert(now =~= before.push(self@[i as int]));
                assert(now =~= self@.subrange(0, i + 1));
            }
            i = i + 1;
        }
        proof {
            assert(out@.map_values(|e: Vec<u8>| e@) =~= self@);
        }
        out
    }

    /// Linear merge of two sorted sequences: afterwards the set of elements
    /// is the union.
    pub fn merge(&mut self, other: &GSet)
        requires
            old(self).wf(),
            other.wf(),
        ensures
            final(self).wf(),
            final(self)@.to_set() == old(self)@.to_set().union(other@.to_set()),
    {
        let ghost a = self@;
        let ghost b = other@;
        let na = self.elems.len();
        let nb = other.elems.len();
        let mut out: Vec<Vec<u8>> = Vec::new();
        let mut ia: usize = 0;
        let mut ib: usize = 0;
        while ia < na || ib < nb
            invariant
                self.wf(),
                other.wf(),
                a == self@,
                b == other@,
                na == a.len(),
                nb == b.len(),
                ia <= na,
                ib <= nb,
                elems_sorted(out@.map_values(|e: Vec<u8>| e@)),
                out@.map_values(|e: Vec<u8>| e@).to_set() =~= a.subrange(0, ia as int).to_set().union(b.subrange(0, ib as int).to_set()),
                out@.len() > 0 && ia < na ==> lex_lt(
                    out@.map_values(|e: Vec<u8>| e@).last(),
                    a[ia as int],
                ),
                out@.len() > 0 && ib < nb ==> lex_lt(
                    out@.map_values(|e: Vec<u8>| e@).last(),
                    b[ib as int],
                ),
            decreases na - ia + nb - ib,
        {
            let ghost before = out@.map_values(|e: Vec<u8>| e@);
            let take_a: bool;
            let take_b: bool;
            if ia < na && ib < nb {
                match lex_cmp(self.elems[ia].as_slice(), other.elems[ib].as_slice()) {
                    ByteCmp::Less => {
                        take_a = true;
                        take_b = false;
                    },
                    ByteCmp::Equal => {
                        take_a = true;
                        take_b = true;
                    },
                    ByteCmp::Greater => {
                        take_a = false;
                        take_b = true;
                    },
                }
            } else if ia < na {
                take_a = true;
                take_b = false;
            } else {
                take_a = false;
                take_b = true;
            }
            if take_a {
                out.push(copy_bytes(self.elems[ia].as_slice()));
            } else {
                out.push(copy_bytes(other.elems[ib].as_slice()));
            }
            let ghost pushed = if take_a {
                a[ia as int]
            } else {
                b[ib as int]
            };
            proof {
                let now = out@.map_values(|e: Vec<u8>| e@);
                assert(now =~= before.push(pushed));
                assert forall|i: int, j: int| 0 <= i < j < now.len() implies lex_lt(
                    #[trigger] now[i],
                    #[trigger] now[j],
                ) by {
                    if j < now.len() - 1 {
                        assert(now[i] == before[i] && now[j] == before[j]);
                    } else if i < now.len() - 1 {
                        assert(now[i] == before[i]);
                        if i < before.len() - 1 {
                            assert(lex_lt(before[i], before.last()));
                            lemma_lex_transitive(before[i], before.last(), pushed);
                        }
                    }
                }
            }
            let ghost oia = ia as int;
            let ghost oib = ib as int;
            if take_a {
                ia = ia + 1;
            }
            if take_b {
                ib = ib + 1;
            }
            proof {
                let now = out@.map_values(|e: Vec<u8>| e@);
                if take_a {
                    assert(a.subrange(0, oia + 1) =~= a.subrange(0, oia).push(a[oia]));
                }
                if take_b {
                    assert(b.subrange(0, oib + 1) =~= b.subrange(0, oib).push(b[oib]));
                }
                if take_a && take_b {
                    assert(pushed == a[oia] && pushed == b[oib]);
                }
                lemma_push_to_set(before, pushed);
                if take_a {
                    lemma_push_to_set(a.subrange(0, oia), a[oia]);
                }
                if take_b {
                    lemma_push_to_set(b.subrange(0, oib), b[oib]);
                }
                assert(now.to_set() =~= a.subrange(0, ia as int).to_set().union(
                    b.subrange(0, ib as int).to_set(),
                ));
                if ia < na {
                    assert(lex_lt(now.last(), a[ia as int])) by {
                        if take_a {
                            assert(pushed == a[oia]);
                        } else {
                            assert(lex_lt(b[oib], a[ia as int]));
                        }
                    }
                }
                if ib < nb {
                    assert(lex_lt(now.last(), b[ib as int])) by {
                        if take_b {
                            assert(pushed == b[oib]);
                        } else {
                            assert(lex_lt(a[oia], b[ib as int]));
                        }
                    }
                }
            }
        }
        self.elems = out;
        proof {
            assert(a.subrange(0, na as int) =~= a);
            assert(b.subrange(0, nb as int) =~= b);
            assert(self@.to_set() =~= a.to_set().union(b.to_set()));
        }
    }

    /// Encodes the set: count, then length-prefixed elements, big-endian.
    pub fn to_bytes(&self) -> (r: Vec<u8>)
        requires
            self@.len() < 0x100000000,
            forall|m: int| 0 <= m < self@.len() ==> (#[trigger] self@[m]).len() < 0x100000000,
        ensures
            r@ == gset_encode(self@),
    {
        let n = self.elems.len();
        let mut out: Vec<u8> = Vec::new();
        push_be32(&mut out, n as u32);
        let mut i: usize = 0;
        while i < n
            invariant
                i <= n,
                n == self@.len(),
                n < 0x100000000,
                forall|m: int| 0 <= m < self@.len() ==> (#[trigger] self@[m]).len() < 0x100000000,
                out@ == be32_bytes(n as u32) + gset_encode_elems(self@.subrange(0, i as int)),
            decreases n - i,
        {
            let e = &self.elems[i];
            push_be32(&mut out, e.len() as u32);
            push_bytes(&mut out, e.as_slice());
            proof {
                lemma_encode_elems_push(self@.subrange(0, i as int), self@[i as int]);
                assert(self@.subrange(0, i + 1) =~= self@.subrange(0, i as int).push(
                    self@[i as int],
                ));
                assert(out@ =~= be32_bytes(n as u32) + gset_encode_elems(
                    self@.subrange(0, i + 1),
                ));
            }
            i = i + 1;
        }
        proof {
            assert(self@.subrange(0, n as int) =~= self@);
        }
        out
    }

    /// Decodes a byte string leniently: truncates at the first short read,
    /// then normalizes, so the result is sorted and deduplicated whatever
    /// the input was.
    pub fn from_bytes(bytes: &[u8]) -> (r: GSet)
        ensures
            r.wf(),
            r@.to_set() == gset_parse(bytes@).to_set(),
            r@.len() < 0x100000000,
    {
        let blen = bytes.len();
        let mut r = GSet::new();
        if blen < 4 {
            proof {
                assert(r@.to_set() =~= gset_parse(bytes@).to_set());
            }
            return r;
        }
        let cnt = read_be32(bytes, 0);
        proof {
            assert(gset_parse(bytes@) == gset_parse_items(bytes@, 4, cnt as int));
        }
        let ghost total = gset_parse_items(bytes@, 4, cnt as int);
        let ghost parsed = Seq::<Seq<u8>>::empty();
        let mut i: usize = 4;
        let mut j: u32 = 0;
        proof {
            assert(r@.to_set() =~= parsed.to_set());
        }
        while j < cnt
            invariant
                4 <= i <= blen,
                blen == bytes@.len(),
                j <= cnt,
                r.wf(),
                r@.len() <= j,
                r@.to_set() == parsed.to_set(),
                total == parsed + gset_parse_items(bytes@, i as int, cnt - j),
                total == gset_parse_items(bytes@, 4, cnt as int),
            decreases cnt - j,
        {
            if blen - i < 4 {
                proof {
                    assert(gset_parse_items(bytes@, i as int, cnt - j) =~= Seq::<Seq<u8>>::empty());
                    assert(total =~= parsed);
                }
                j = cnt;
                continue ;
            }
            let l = read_be32(bytes, i);
            let i4 = i + 4;
            if (blen - i4) < l as usize {
                proof {
                    assert(gset_parse_items(bytes@, i as int, cnt - j) =~= Seq::<Seq<u8>>::empty());
                    assert(total =~= parsed);
                }
                j = cnt;
                continue ;
            }
            let elem = copy_bytes(&bytes[i4..i4 + l as usize]);
            proof {
                assert(elem@ == bytes@.subrange(i as int + 4, i as int + 4 + l));
            }
            r.insert(elem);
            proof {
                lemma_push_to_set(parsed, bytes@.subrange(i as int + 4, i as int + 4 + l));
                assert(gset_parse_items(bytes@, i as int, cnt - j) == seq![
                    bytes@.subrange(i as int + 4, i as int + 4 + l),
                ] + gset_parse_items(bytes@, i as int + 4 + l, cnt - j - 1));
            }
            proof {
                assert((parsed + gset_parse_items(bytes@, i as int, cnt - j)) =~= (parsed.push(
                    bytes@.subrange(i as int + 4, i as int + 4 + l),
                ) + gset_parse_items(bytes@, i as int + 4 + l, cnt - j - 1)));
            }
            let ghost parsed2 = parsed.push(bytes@.subrange(i as int + 4, i as int + 4 + l));
            proof {
                parsed = parsed2;
            }
            i = i4 + l as usize;
            j = j + 1;
        }
        proof {
            assert(gset_parse_items(bytes@, i as int, 0) =~= Seq::<Seq<u8>>::empty());
            assert(total =~= parsed);
            assert(r@.to_set() == total.to_set());
        }
        r
    }
}

// ---------------------------------------------------------------------------
// Binary codec: count (4 BE), then per element length (4 BE) and bytes.
// ---------------------------------------------------------------------------

/// Encoding of the elements alone, in order.
pub open spec fn gset_encode_elems(s: Seq<Seq<u8>>) -> Seq<u8>
    decreases s.len(),
{
    if s.len() == 0 {
        Seq::empty()
    } else {
        be32_bytes(s[0].len() as u32) + s[0] + gset_encode_elems(s.drop_first())
    }
}

/// The wire format: a 4-byte big-endian count, then each element as a
/// 4-byte big-endian length followed by its bytes.
pub open spec fn gset_encode(s: Seq<Seq<u8>>) -> Seq<u8> {
    be32_bytes(s.len() as u32) + gset_encode_elems(s)
}

/// The raw element list a decoder reads: stops at the first short read.
pub open spec fn gset_parse_items(b: Seq<u8>, i: int, cnt: int) -> Seq<Seq<u8>>
    decreases cnt,
{
    if cnt <= 0 {
        Seq::empty()
    } else if i + 4 > b.len() {
        Seq::empty()
    } else {
        let l = be32_val(b.subrange(i, i + 4));
        if i + 4 + l > b.len() {
            Seq::empty()
        } else {
            seq![b.subrange(i + 4, i + 4 + l)] + gset_parse_items(b, i + 4 + l, cnt - 1)
        }
    }
}

/// What any byte sequence decodes to, before normalization.
pub open spec fn gset_parse(b: Seq<u8>) -> Seq<Seq<u8>> {
    if b.len() < 4 {
        Seq::empty()
    } else {
        gset_parse_items(b, 4, be32_val(b.subrange(0, 4)))
    }
}

/// Appending one element extends the encoding by that element's record.
proof fn lemma_encode_elems_push(s: Seq<Seq<u8>>, x: Seq<u8>)
    ensures
        gset_encode_elems(s.push(x)) == gset_encode_elems(s) + be32_bytes(x.len() as u32) + x,
    decreases s.len(),
{
    if s.len() == 0 {
        assert(s.push(x).drop_first() =~= Seq::<Seq<u8>>::empty());
        assert(s.push(x)[0] == x);
        assert(gset_encode_elems(s.push(x)) == be32_bytes(x.len() as u32) + x + gset_encode_elems(
            s.push(x).drop_first(),
        ));
        assert(gset_encode_elems(Seq::<Seq<u8>>::empty()) =~= Seq::<u8>::empty());
        assert(gset_encode_elems(s.push(x)) =~= gset_encode_elems(s) + be32_bytes(
            x.len() as u32,
        ) + x);
    } else {
        assert(s.push(x).drop_first() =~= s.drop_first().push(x));
        lemma_encode_elems_push(s.drop_first(), x);
        assert(gset_encode_elems(s.push(x)) =~= gset_encode_elems(s) + be32_bytes(
            x.len() as u32,
        ) + x);
    }
}

/// Parsing reads back exactly the elements whose encoding starts at `i`.
proof fn lemma_parse_items_of_encode(b: Seq<u8>, i: int, s: Seq<Seq<u8>>)
    requires
        0 <= i <= b.len(),
        b.subrange(i, b.len() as int) == gset_encode_elems(s),
        forall|m: int| 0 <= m < s.len() ==> (#[trigger] s[m]).len() < 0x100000000,
    ensures
        gset_parse_items(b, i, s.len() as int) == s,
    decreases s.len(),
{
    if s.len() == 0 {
        assert(b.subrange(i, b.len() as int).len() == b.len() - i);
        assert(gset_encode_elems(s).len() == 0);
        assert(b.len() == i);
    } else {
        let tail = b.subrange(i, b.len() as int);
        let l = s[0].len() as int;
        assert(s[0].len() < 0x100000000);
        lemma_be32_roundtrip(s[0].len() as u32);
        assert(tail.len() == 4 + l + gset_encode_elems(s.drop_first()).len());
        assert(b.subrange(i, i + 4) =~= be32_bytes(s[0].len() as u32)) by {
            assert forall|m: int| 0 <= m < 4 implies #[trigger] b.subrange(i, i + 4)[m]
                == be32_bytes(s[0].len() as u32)[m] by {
                assert(b.subrange(i, i + 4)[m] == tail[m]);
            }
        }
        assert(be32_val(b.subrange(i, i + 4)) == l);
        assert(b.subrange(i + 4, i + 4 + l) =~= s[0]) by {
            assert forall|m: int| 0 <= m < l implies #[trigger] b.subrange(i + 4, i + 4 + l)[m]
                == s[0][m] by {
                assert(b.subrange(i + 4, i + 4 + l)[m] == tail[4 + m]);
            }
        }
        assert(b.subrange(i + 4 + l, b.len() as int) =~= gset_encode_elems(s.drop_first())) by {
            let rest = gset_encode_elems(s.drop_first());
            assert forall|m: int| 0 <= m < rest.len() implies #[trigger] b.subrange(
                i + 4 + l,
                b.len() as int,
            )[m] == rest[m] by {
                assert(b.subrange(i + 4 + l, b.len() as int)[m] == tail[4 + l + m]);
            }
        }
        lemma_parse_items_of_encode(b, i + 4 + l, s.drop_first());
        assert(gset_parse_items(b, i, s.len() as int) =~= s);
    }
}

/// Every element any byte string parses to fits its length field.
pub proof fn lemma_gset_parse_items_lens(b: Seq<u8>, i: int, cnt: int)
    requires
        0 <= i,
    ensures
        forall|m: int|
            0 <= m < gset_parse_items(b, i, cnt).len() ==> (#[trigger] gset_parse_items(
                b,
                i,
                cnt,
            )[m]).len() < 0x100000000,
    decreases cnt,
{
    if cnt > 0 && i + 4 <= b.len() {
        let l = be32_val(b.subrange(i, i + 4));
        if i + 4 + l <= b.len() {
            lemma_gset_parse_items_lens(b, i + 4 + l, cnt - 1);
            assert forall|m: int| 0 <= m < gset_parse_items(b, i, cnt).len() implies (
            #[trigger] gset_parse_items(b, i, cnt)[m]).len() < 0x100000000 by {
                crate::wire::lemma_be32_bytes_bound(b.subrange(i, i + 4));
                if m > 0 {
                    assert(gset_parse_items(b, i, cnt)[m] == gset_parse_items(
                        b,
                        i + 4 + l,
                        cnt - 1,
                    )[m - 1]);
                }
            }
        }
    }
}

/// Decoding an encoding yields the original element sequence, provided each
/// length fits its 4-byte field.
pub proof fn lemma_gset_codec_roundtrip(s: Seq<Seq<u8>>)
    requires
        s.len() < 0x100000000,
        forall|m: int| 0 <= m < s.len() ==> (#[trigger] s[m]).len() < 0x100000000,
    ensures
        gset_parse(gset_encode(s)) == s,
{
    let b = gset_encode(s);
    lemma_be32_roundtrip(s.len() as u32);
    assert(b.subrange(0, 4) =~= be32_bytes(s.len() as u32));
    assert(b.len() >= 4);
    assert(be32_val(b.subrange(0, 4)) == s.len());
    assert(b.subrange(4, b.len() as int) =~= gset_encode_elems(s));
    lemma_parse_items_of_encode(b, 4, s);
}

// ---------------------------------------------------------------------------
// The merge laws: union is idempotent, commutative and associative, and the
// canonical representation carries those laws over to the stored sequences.
// ---------------------------------------------------------------------------

/// Merging a well-formed set with itself leaves it unchanged: any
/// well-formed result of `merge(g, g)` equals `g`.
pub proof fn lemma_gset_merge_idempotent(g: Seq<Seq<u8>>, m: Seq<Seq<u8>>)
    requires
        elems_sorted(g),
        elems_sorted(m),
        m.to_set() == g.to_set().union(g.to_set()),
    ensures
        m == g,
{
    assert(g.to_set().union(g.to_set()) =~= g.to_set());
    lemma_sorted_canonical(m, g);
}

/// Merging in either order gives the same set: any well-formed results of
/// `merge(a, b)` and `merge(b, a)` are equal.
pub proof fn lemma_gset_merge_commutative(
    a: Seq<Seq<u8>>,
    b: Seq<Seq<u8>>,
    ab: Seq<Seq<u8>>,
    ba: Seq<Seq<u8>>,
)
    requires
        elems_sorted(a),
        elems_sorted(b),
        elems_sorted(ab),
        elems_sorted(ba),
        ab.to_set() == a.to_set().union(b.to_set()),
        ba.to_set() == b.to_set().union(a.to_set()),
    ensures
        ab == ba,
{
    assert(a.to_set().union(b.to_set()) =~= b.to_set().union(a.to_set()));
    lemma_sorted_canonical(ab, ba);
}

/// Merging is associative: merging `c` into the merge of `a` and `b` equals
/// merging the merge of `b` and `c` into `a`.
pub proof fn lemma_gset_merge_associative(
    a: Seq<Seq<u8>>,
    b: Seq<Seq<u8>>,
    c: Seq<Seq<u8>>,
    ab: Seq<Seq<u8>>,
    ab_c: Seq<Seq<u8>>,
    bc: Seq<Seq<u8>>,
    a_bc: Seq<Seq<u8>>,
)
    requires
        elems_sorted(ab),
        elems_sorted(ab_c),
        elems_sorted(bc),
        elems_sorted(a_bc),
        ab.to_set() == a.to_set().union(b.to_set()),
        ab_c.to_set() == ab.to_set().union(c.to_set()),
        bc.to_set() == b.to_set().union(c.to_set()),
        a_bc.to_set() == a.to_set().union(bc.to_set()),
    ensures
        ab_c == a_bc,
{
    assert(ab_c.to_set() =~= a_bc.to_set());
    lemma_sorted_canonical(ab_c, a_bc);
}

/// A well-formed set decoded from its own encoding is unchanged: together
/// with the contracts of `to_bytes` and `from_bytes` this is the round-trip
/// law for well-formed sets.
pub proof fn lemma_gset_from_to_bytes(g: Seq<Seq<u8>>, r: Seq<Seq<u8>>)
    requires
        elems_sorted(g),
        elems_sorted(r),
        g.len() < 0x100000000,
        forall|m: int| 0 <= m < g.len() ==> (#[trigger] g[m]).len() < 0x100000000,
        r.to_set() == gset_parse(gset_encode(g)).to_set(),
    ensures
        r == g,
{
    lemma_gset_codec_roundtrip(g);
    lemma_sorted_canonical(r, g);
}

} // verus!
