//! The in-memory write buffer: an ordered map from key to entry with a
//! running byte-usage counter, frozen and flushed once it crosses its
//! configured threshold.

use vstd::prelude::*;

use crate::wire::{copy_bytes, lemma_lex_asymmetric, lemma_lex_transitive, lex_cmp, lex_lt, ByteCmp};

verus! {

/// One stored record: a value, or a tombstone that masks earlier writes.
#[derive(Debug)]
pub enum Entry {
    Put(Vec<u8>),
    Delete,
}

/// Mathematical model of an [`Entry`].
pub enum EntrySpec {
    Put(Seq<u8>),
    Delete,
}

impl View for Entry {
    type V = EntrySpec;

    open spec fn view(&self) -> EntrySpec {
        match self {
            Entry::Put(v) => EntrySpec::Put(v@),
            Entry::Delete => EntrySpec::Delete,
        }
    }
}

/// The byte cost `tag + two length prefixes + key + value` that one entry
/// contributes to the buffer's usage counter.
pub open spec fn entry_cost(k: Seq<u8>, e: EntrySpec) -> int {
    9 + k.len() + match e {
        EntrySpec::Put(v) => v.len() as int,
        EntrySpec::Delete => 0,
    }
}

/// Total byte cost of an association sequence.
pub open spec fn cost_sum(s: Seq<(Seq<u8>, EntrySpec)>) -> int
    decreases s.len(),
{
    if s.len() == 0 {
        0
    } else {
        entry_cost(s[0].0, s[0].1) + cost_sum(s.drop_first())
    }
}

/// Keys are in strictly ascending lexicographic order (hence unique).
pub open spec fn assoc_sorted(s: Seq<(Seq<u8>, EntrySpec)>) -> bool {
    forall|i: int, j: int| 0 <= i < j < s.len() ==> lex_lt(#[trigger] s[i].0, #[trigger] s[j].0)
}

/// Lookup by first match.
pub open spec fn assoc_get(s: Seq<(Seq<u8>, EntrySpec)>, k: Seq<u8>) -> Option<EntrySpec>
    decreases s.len(),
{
    if s.len() == 0 {
        None
    } else if s[0].0 == k {
        Some(s[0].1)
    } else {
        assoc_get(s.drop_first(), k)
    }
}

/// Sorted insertion, overwriting an equal key.
pub open spec fn assoc_put(s: Seq<(Seq<u8>, EntrySpec)>, k: Seq<u8>, e: EntrySpec) -> Seq<
    (Seq<u8>, EntrySpec),
>
    decreases s.len(),
{
    if s.len() == 0 {
        seq![(k, e)]
    } else if lex_lt(k, s[0].0) {
        seq![(k, e)] + s
    } else if k == s[0].0 {
        seq![(k, e)] + s.drop_first()
    } else {
        seq![s[0]] + assoc_put(s.drop_first(), k, e)
    }
}

pub proof fn lemma_assoc_get_index(s: Seq<(Seq<u8>, EntrySpec)>, k: Seq<u8>, i: int)
    requires
        0 <= i < s.len(),
        s[i].0 == k,
        forall|j: int| 0 <= j < i ==> (#[trigger] s[j]).0 != k,
    ensures
        assoc_get(s, k) == Some(s[i].1),
    decreases i,
{
    if i > 0 {
        lemma_assoc_get_index(s.drop_first(), k, i - 1);
    }
}

pub proof fn lemma_assoc_get_none(s: Seq<(Seq<u8>, EntrySpec)>, k: Seq<u8>)
    requires
        forall|j: int| 0 <= j < s.len() ==> (#[trigger] s[j]).0 != k,
    ensures
        assoc_get(s, k) is None,
    decreases s.len(),
{
    if s.len() > 0 {
        lemma_assoc_get_none(s.drop_first(), k);
    }
}

/// Writing at the position of an equal key is a pointwise update.
pub proof fn lemma_assoc_put_is_update(
    s: Seq<(Seq<u8>, EntrySpec)>,
    k: Seq<u8>,
    e: EntrySpec,
    i: int,
)
    requires
        0 <= i < s.len(),
        s[i].0 == k,
        forall|j: int| 0 <= j < i ==> lex_lt((#[trigger] s[j]).0, k),
    ensures
        assoc_put(s, k, e) == s.update(i, (k, e)),
    decreases i,
{
    lemma_lex_asymmetric(s[0].0, k);
    if i == 0 {
        assert(assoc_put(s, k, e) =~= s.update(0, (k, e)));
    } else {
        lemma_assoc_put_is_update(s.drop_first(), k, e, i - 1);
        assert(seq![s[0]] + s.drop_first().update(i - 1, (k, e)) =~= s.update(i, (k, e)));
    }
}

/// Writing a fresh key at its insertion point is a pointwise insert.
pub proof fn lemma_assoc_put_is_insert(
    s: Seq<(Seq<u8>, EntrySpec)>,
    k: Seq<u8>,
    e: EntrySpec,
    i: int,
)
    requires
        0 <= i <= s.len(),
        forall|j: int| 0 <= j < i ==> lex_lt((#[trigger] s[j]).0, k),
        i == s.len() || lex_lt(k, s[i].0),
    ensures
        assoc_put(s, k, e) == s.insert(i, (k, e)),
    decreases i,
{
    if i == 0 {
        if s.len() == 0 {
            assert(assoc_put(s, k, e) =~= s.insert(0, (k, e)));
        } else {
            assert(assoc_put(s, k, e) =~= s.insert(0, (k, e)));
        }
    } else {
        lemma_lex_asymmetric(s[0].0, k);
        lemma_assoc_put_is_insert(s.drop_first(), k, e, i - 1);
        assert(seq![s[0]] + s.drop_first().insert(i - 1, (k, e)) =~= s.insert(i, (k, e)));
    }
}

pub proof fn lemma_assoc_put_sorted(s: Seq<(Seq<u8>, EntrySpec)>, k: Seq<u8>, e: EntrySpec)
    requires
        assoc_sorted(s),
    ensures
        assoc_sorted(assoc_put(s, k, e)),
        assoc_get(assoc_put(s, k, e), k) == Some(e),
        forall|k2: Seq<u8>|
            k2 != k ==> #[trigger] assoc_get(assoc_put(s, k, e), k2) == assoc_get(s, k2),
        cost_sum(assoc_put(s, k, e)) == cost_sum(s) + entry_cost(k, e) - match assoc_get(s, k) {
            Some(e0) => entry_cost(k, e0),
            None => 0,
        },
    decreases s.len(),
{
    if s.len() == 0 {
        let t = assoc_put(s, k, e);
        assert(t.drop_first() =~= s);
        assert forall|k2: Seq<u8>| k2 != k implies #[trigger] assoc_get(t, k2) == assoc_get(
            s,
            k2,
        ) by {}
    } else if lex_lt(k, s[0].0) {
        let t = seq![(k, e)] + s;
        assert(t.drop_first() =~= s);
        assert forall|i: int, j: int| 0 <= i < j < t.len() implies lex_lt(
            #[trigger] t[i].0,
            #[trigger] t[j].0,
        ) by {
            if i == 0 {
                if j > 1 {
                    lemma_lex_transitive(k, s[0].0, t[j].0);
                }
            }
        }
        assert forall|k2: Seq<u8>| k2 != k implies #[trigger] assoc_get(t, k2) == assoc_get(
            s,
            k2,
        ) by {}
        assert(assoc_get(s, k) is None) by {
            assert forall|j: int| 0 <= j < s.len() implies (#[trigger] s[j]).0 != k by {
                if j > 0 {
                    lemma_lex_transitive(k, s[0].0, s[j].0);
                }
                lemma_lex_asymmetric(k, s[j].0);
            }
            lemma_assoc_get_none(s, k);
        }
        assert(cost_sum(t) == entry_cost(k, e) + cost_sum(s));
    } else if k == s[0].0 {
        let t = seq![(k, e)] + s.drop_first();
        assert(t.drop_first() =~= s.drop_first());
        assert forall|i: int, j: int| 0 <= i < j < t.len() implies lex_lt(
            #[trigger] t[i].0,
            #[trigger] t[j].0,
        ) by {
            if i == 0 {
                assert(lex_lt(s[0].0, s[j].0));
            } else {
                assert(lex_lt(s[i].0, s[j].0));
            }
        }
        assert forall|k2: Seq<u8>| k2 != k implies #[trigger] assoc_get(t, k2) == assoc_get(
            s,
            k2,
        ) by {
            assert(assoc_get(t, k2) == assoc_get(s.drop_first(), k2));
            assert(assoc_get(s, k2) == assoc_get(s.drop_first(), k2));
        }
        assert(cost_sum(t) == entry_cost(k, e) + cost_sum(s.drop_first()));
        assert(cost_sum(s) == entry_cost(s[0].0, s[0].1) + cost_sum(s.drop_first()));
    } else {
        crate::wire::lemma_lex_connected(k, s[0].0);
        assert(lex_lt(s[0].0, k));
        lemma_assoc_put_sorted(s.drop_first(), k, e);
        let rec = assoc_put(s.drop_first(), k, e);
        let t = seq![s[0]] + rec;
        assert(assoc_put(s, k, e) == t);
        assert(t.drop_first() =~= rec);
        assert forall|i: int, j: int| 0 <= i < j < t.len() implies lex_lt(
            #[trigger] t[i].0,
            #[trigger] t[j].0,
        ) by {
            if i == 0 {
                assert forall|m: int| 0 <= m < s.drop_first().len() implies lex_lt(
                    s[0].0,
                    (#[trigger] s.drop_first()[m]).0,
                ) by {
                    assert(s.drop_first()[m] == s[m + 1]);
                }
                lemma_assoc_put_key_bound(s.drop_first(), k, e, s[0].0, j - 1);
            } else {
                assert(lex_lt(rec[i - 1].0, rec[j - 1].0));
            }
        }
        assert(s[0].0 != k);
        assert(assoc_get(t, k) == assoc_get(rec, k));
        assert(assoc_get(s, k) == assoc_get(s.drop_first(), k));
        assert forall|k2: Seq<u8>| k2 != k implies #[trigger] assoc_get(t, k2) == assoc_get(
            s,
            k2,
        ) by {
            if k2 != s[0].0 {
                assert(assoc_get(t, k2) == assoc_get(rec, k2));
                assert(assoc_get(s, k2) == assoc_get(s.drop_first(), k2));
            }
        }
        assert(cost_sum(t) == entry_cost(s[0].0, s[0].1) + cost_sum(rec));
        assert(cost_sum(s) == entry_cost(s[0].0, s[0].1) + cost_sum(s.drop_first()));
    }
}

/// Every key of `assoc_put(s, k, e)` is `k` or a key of `s`; used to push a
/// strict lower bound through the insertion.
proof fn lemma_assoc_put_key_bound(
    s: Seq<(Seq<u8>, EntrySpec)>,
    k: Seq<u8>,
    e: EntrySpec,
    lo: Seq<u8>,
    j: int,
)
    requires
        0 <= j < assoc_put(s, k, e).len(),
        lex_lt(lo, k),
        forall|i: int| 0 <= i < s.len() ==> lex_lt(lo, (#[trigger] s[i]).0),
    ensures
        lex_lt(lo, assoc_put(s, k, e)[j].0),
    decreases s.len(),
{
    if s.len() == 0 {
    } else if lex_lt(k, s[0].0) {
    } else if k == s[0].0 {
    } else {
        if j > 0 {
            lemma_assoc_put_key_bound(s.drop_first(), k, e, lo, j - 1);
        }
    }
}

/// The in-memory ordered write buffer.
pub struct MemTable {
    entries: Vec<(Vec<u8>, Entry)>,
    bytes_used: usize,
    max_bytes: usize,
}

impl View for MemTable {
    type V = Seq<(Seq<u8>, EntrySpec)>;

    closed spec fn view(&self) -> Seq<(Seq<u8>, EntrySpec)> {
        self.entries@.map_values(|p: (Vec<u8>, Entry)| (p.0@, p.1@))
    }
}

impl MemTable {
    /// Keys strictly ascending and the usage counter exact.
    pub closed spec fn wf(&self) -> bool {
        &&& assoc_sorted(self@)
        &&& self.bytes_used == cost_sum(self@)
    }

    pub closed spec fn spec_bytes_used(&self) -> usize {
        self.bytes_used
    }

    pub closed spec fn spec_max_bytes(&self) -> usize {
        self.max_bytes
    }

    pub fn new(max_bytes: usize) -> (r: MemTable)
        ensures
            r.wf(),
            r@ == Seq::<(Seq<u8>, EntrySpec)>::empty(),
            r.spec_bytes_used() == 0,
            r.spec_max_bytes() == max_bytes,
    {
        let r = MemTable { entries: Vec::new(), bytes_used: 0, max_bytes };
        proof {
            assert(r@ =~= Seq::<(Seq<u8>, EntrySpec)>::empty());
        }
        r
    }

    pub fn len(&self) -> (r: usize)
        ensures
            r == self@.len(),
    {
        self.entries.len()
    }

    pub fn is_empty(&self) -> (r: bool)
        ensures
            r <==> self@.len() == 0,
    {
        self.entries.len() == 0
    }

    pub fn bytes_used(&self) -> (r: usize)
        ensures
            r == self.spec_bytes_used(),
    {
        self.bytes_used
    }

    pub fn max_bytes(&self) -> (r: usize)
        ensures
            r == self.spec_max_bytes(),
    {
        self.max_bytes
    }

    pub fn over_threshold(&self) -> (r: bool)
        ensures
            r <==> self.spec_bytes_used() >= self.spec_max_bytes(),
    {
        self.bytes_used >= self.max_bytes
    }

    /// Index of `key`, or of the first greater key.
    fn locate(&self, key: &[u8]) -> (r: (usize, bool))
        requires
            self.wf(),
        ensures
            r.0 <= self@.len(),
            forall|j: int| 0 <= j < r.0 ==> lex_lt((#[trigger] self@[j]).0, key@),
            r.1 ==> r.0 < self@.len() && self@[r.0 as int].0 == key@,
            !r.1 ==> r.0 == self@.len() || lex_lt(key@, self@[r.0 as int].0),
    {
        let n = self.entries.len();
        let mut i: usize = 0;
        while i < n
            invariant
                self.wf(),
                i <= n,
                n == self@.len(),
                forall|j: int| 0 <= j < i ==> lex_lt((#[trigger] self@[j]).0, key@),
            decreases n - i,
        {
            match lex_cmp(self.entries[i].0.as_slice(), key) {
                ByteCmp::Less => {
                    i = i + 1;
                },
                ByteCmp::Equal => {
                    return (i, true);
                },
                ByteCmp::Greater => {
                    return (i, false);
                },
            }
        }
        (n, false)
    }

    /// Records `key -> value`, overwriting any existing entry and adjusting
    /// the usage counter by the entries' byte costs.
    pub fn put(&mut self, key: &[u8], value: &[u8])
        requires
            old(self).wf(),
            old(self).spec_bytes_used() + 9 + key@.len() + value@.len() <= usize::MAX,
        ensures
            final(self).wf(),
            final(self)@ == assoc_put(old(self)@, key@, EntrySpec::Put(value@)),
            final(self).spec_max_bytes() == old(self).spec_max_bytes(),
    {
        self.write(key, Entry::Put(copy_bytes(value)));
    }

    /// Records a tombstone for `key`.
    pub fn delete(&mut self, key: &[u8])
        requires
            old(self).wf(),
            old(self).spec_bytes_used() + 9 + key@.len() <= usize::MAX,
        ensures
            final(self).wf(),
            final(self)@ == assoc_put(old(self)@, key@, EntrySpec::Delete),
            final(self).spec_max_bytes() == old(self).spec_max_bytes(),
    {
        self.write(key, Entry::Delete);
    }

    fn write(&mut self, key: &[u8], entry: Entry)
        requires
            old(self).wf(),
            old(self).spec_bytes_used() + entry_cost(key@, entry@) <= usize::MAX,
        ensures
            final(self).wf(),
            final(self)@ == assoc_put(old(self)@, key@, entry@),
            final(self).spec_max_bytes() == old(self).spec_max_bytes(),
    {
        proof {
            lemma_assoc_put_sorted(self@, key@, entry@);
        }
        let ghost s0 = self@;
        let new_cost = entry_byte_cost(key, &entry);
        let (idx, found) = self.locate(key);
        if found {
            proof {
                assert forall|j: int| 0 <= j < idx implies (#[trigger] s0[j]).0 != key@ by {
                    lemma_lex_asymmetric(s0[j].0, key@);
                }
                lemma_assoc_get_index(s0, key@, idx as int);
                lemma_assoc_put_is_update(s0, key@, entry@, idx as int);
                lemma_cost_at_most_sum(s0, idx as int);
            }
            let old_cost = entry_byte_cost(self.entries[idx].0.as_slice(), &self.entries[idx].1);
            self.bytes_used = self.bytes_used - old_cost + new_cost;
            self.entries.set(idx, (copy_bytes(key), entry));
            proof {
                assert(self@ =~= s0.update(idx as int, (key@, entry@)));
            }
        } else {
            proof {
                assert forall|j: int| 0 <= j < s0.len() implies (#[trigger] s0[j]).0 != key@ by {
                    if j < idx {
                        lemma_lex_asymmetric(s0[j].0, key@);
                    } else if idx < s0.len() {
                        if j > idx {
                            lemma_lex_transitive(key@, s0[idx as int].0, s0[j].0);
                        }
                        lemma_lex_asymmetric(key@, s0[j].0);
                    }
                }
                lemma_assoc_get_none(s0, key@);
                lemma_assoc_put_is_insert(s0, key@, entry@, idx as int);
            }
            self.bytes_used = self.bytes_used + new_cost;
            self.entries.insert(idx, (copy_bytes(key), entry));
            proof {
                assert(self@ =~= s0.insert(idx as int, (key@, entry@)));
            }
        }
    }

    /// Looks the key up; a tombstone is reported as such, not as absence.
    pub fn get(&self, key: &[u8]) -> (r: Option<&Entry>)
        requires
            self.wf(),
        ensures
            match r {
                Some(e) => assoc_get(self@, key@) == Some(e@),
                None => assoc_get(self@, key@) is None,
            },
    {
        let (idx, found) = self.locate(key);
        if found {
            proof {
                assert forall|j: int| 0 <= j < idx implies (#[trigger] self@[j]).0 != key@ by {
                    lemma_lex_asymmetric(self@[j].0, key@);
                }
                lemma_assoc_get_index(self@, key@, idx as int);
            }
            Some(&self.entries[idx].1)
        } else {
            proof {
                assert forall|j: int| 0 <= j < self@.len() implies (#[trigger] self@[j]).0
                    != key@ by {
                    if j < idx {
                        lemma_lex_asymmetric(self@[j].0, key@);
                    } else if idx < self@.len() {
                        if j > idx {
                            lemma_lex_transitive(key@, self@[idx as int].0, self@[j].0);
                        }
                        lemma_lex_asymmetric(key@, self@[j].0);
                    }
                }
                lemma_assoc_get_none(self@, key@);
            }
            None
        }
    }

    pub fn contains_key(&self, key: &[u8]) -> (r: bool)
        requires
            self.wf(),
        ensures
            r <==> assoc_get(self@, key@) is Some,
    {
        match self.get(key) {
            Some(_) => true,
            None => false,
        }
    }

    /// The key of the `i`-th entry in ascending key order.
    pub fn key_at(&self, i: usize) -> (r: &Vec<u8>)
        requires
            i < self@.len(),
        ensures
            r@ == self@[i as int].0,
    {
        &self.entries[i].0
    }

    /// The entry stored under the `i`-th key.
    pub fn entry_at(&self, i: usize) -> (r: &Entry)
        requires
            i < self@.len(),
        ensures
            r@ == self@[i as int].1,
    {
        &self.entries[i].1
    }

    pub fn smallest_key(&self) -> (r: Option<&Vec<u8>>)
        ensures
            match r {
                Some(k) => self@.len() > 0 && k@ == self@[0].0,
                None => self@.len() == 0,
            },
    {
        if self.entries.len() == 0 {
            None
        } else {
            Some(&self.entries[0].0)
        }
    }

    pub fn largest_key(&self) -> (r: Option<&Vec<u8>>)
        ensures
            match r {
                Some(k) => self@.len() > 0 && k@ == self@[self@.len() - 1].0,
                None => self@.len() == 0,
            },
    {
        if self.entries.len() == 0 {
            None
        } else {
            Some(&self.entries[self.entries.len() - 1].0)
        }
    }
}

/// Byte cost of one entry, as stored.
fn entry_byte_cost(key: &[u8], entry: &Entry) -> (r: usize)
    requires
        9 + key@.len() + match entry@ {
            EntrySpec::Put(v) => v.len() as int,
            EntrySpec::Delete => 0,
        } <= usize::MAX,
    ensures
        r == entry_cost(key@, entry@),
{
    match entry {
        Entry::Put(v) => 9 + key.len() + v.len(),
        Entry::Delete => 9 + key.len(),
    }
}

/// A well-formed memtable's association sequence is sorted.
pub proof fn lemma_memtable_wf_sorted(m: MemTable)
    requires
        m.wf(),
    ensures
        assoc_sorted(m@),
{
}

/// A sorted insertion never leaves the sequence empty.
pub proof fn lemma_assoc_put_nonempty(s: Seq<(Seq<u8>, EntrySpec)>, k: Seq<u8>, e: EntrySpec)
    ensures
        assoc_put(s, k, e).len() >= 1,
    decreases s.len(),
{
    if s.len() > 0 && !lex_lt(k, s[0].0) && k != s[0].0 {
        lemma_assoc_put_nonempty(s.drop_first(), k, e);
    }
}

/// A well-formed memtable's usage counter is its records' byte cost.
pub proof fn lemma_memtable_bytes_is_cost(m: MemTable)
    requires
        m.wf(),
    ensures
        m.spec_bytes_used() == cost_sum(m@),
{
}

/// One entry's cost never exceeds the total.
pub proof fn lemma_cost_at_most_sum(s: Seq<(Seq<u8>, EntrySpec)>, i: int)
    requires
        0 <= i < s.len(),
    ensures
        entry_cost(s[i].0, s[i].1) <= cost_sum(s),
        cost_sum(s) >= 0,
    decreases s.len(),
{
    lemma_cost_sum_nonneg(s.drop_first());
    if i > 0 {
        lemma_cost_at_most_sum(s.drop_first(), i - 1);
    }
}

pub proof fn lemma_cost_sum_nonneg(s: Seq<(Seq<u8>, EntrySpec)>)
    ensures
        cost_sum(s) >= 0,
    decreases s.len(),
{
    if s.len() > 0 {
        lemma_cost_sum_nonneg(s.drop_first());
    }
}

} // verus!
