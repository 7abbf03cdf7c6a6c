//! The active write buffer plus the queue of frozen buffers awaiting flush.
//! Readers consult the active buffer first, then the frozen ones newest
//! first.

use vstd::prelude::*;

use crate::memtable::{assoc_get, assoc_put, Entry, EntrySpec, MemTable};

verus! {

/// Lookup across frozen buffers, newest (last pushed) first.
pub open spec fn imm_get(ms: Seq<Seq<(Seq<u8>, EntrySpec)>>, k: Seq<u8>) -> Option<EntrySpec>
    decreases ms.len(),
{
    if ms.len() == 0 {
        None
    } else {
        match assoc_get(ms.last(), k) {
            Some(e) => Some(e),
            None => imm_get(ms.drop_last(), k),
        }
    }
}

pub proof fn lemma_imm_get_none(ms: Seq<Seq<(Seq<u8>, EntrySpec)>>, k: Seq<u8>)
    requires
        forall|j: int| 0 <= j < ms.len() ==> assoc_get(#[trigger] ms[j], k) is None,
    ensures
        imm_get(ms, k) is None,
    decreases ms.len(),
{
    if ms.len() > 0 {
        lemma_imm_get_none(ms.drop_last(), k);
    }
}

pub proof fn lemma_imm_get_hit(ms: Seq<Seq<(Seq<u8>, EntrySpec)>>, k: Seq<u8>, i: int)
    requires
        0 <= i < ms.len(),
        assoc_get(ms[i], k) is Some,
        forall|j: int| i < j < ms.len() ==> assoc_get(#[trigger] ms[j], k) is None,
    ensures
        imm_get(ms, k) == assoc_get(ms[i], k),
    decreases ms.len(),
{
    if i < ms.len() - 1 {
        lemma_imm_get_hit(ms.drop_last(), k, i);
    }
}

/// One active memtable and the immutable queue behind it.
pub struct MemTableSet {
    active: MemTable,
    immutables: Vec<MemTable>,
    max_bytes: usize,
}

impl MemTableSet {
    /// Model of the active buffer.
    pub closed spec fn active_view(&self) -> Seq<(Seq<u8>, EntrySpec)> {
        self.active@
    }

    /// Models of the frozen buffers, oldest first.
    pub closed spec fn imm_views(&self) -> Seq<Seq<(Seq<u8>, EntrySpec)>> {
        self.immutables@.map_values(|m: MemTable| m@)
    }

    pub closed spec fn spec_max_bytes(&self) -> usize {
        self.max_bytes
    }

    pub closed spec fn spec_active_bytes(&self) -> usize {
        self.active.spec_bytes_used()
    }

    /// The buffers themselves are well formed; unlike `wf` this does not
    /// say the active buffer is below its threshold, so it also holds in the
    /// middle of a write that is about to freeze.
    pub closed spec fn buffers_wf(&self) -> bool {
        &&& self.active.wf()
        &&& self.active.spec_max_bytes() == self.max_bytes
        &&& forall|i: int| 0 <= i < self.immutables@.len() ==> (#[trigger] self.immutables@[i]).wf()
    }

    pub closed spec fn wf(&self) -> bool {
        &&& self.buffers_wf()
        &&& (self.active.spec_bytes_used() < self.max_bytes || self.active_view().len() == 0)
    }

    /// The entry that the memtable layers give for `k`: the active buffer
    /// decides if it holds the key, else the newest frozen buffer that does.
    pub open spec fn set_get(&self, k: Seq<u8>) -> Option<EntrySpec> {
        match assoc_get(self.active_view(), k) {
            Some(e) => Some(e),
            None => imm_get(self.imm_views(), k),
        }
    }

    /// Well-formedness includes the buffers' own well-formedness.
    pub proof fn lemma_wf_buffers(&self)
        requires
            self.wf(),
        ensures
            self.buffers_wf(),
    {
    }

    /// A well-formed set's active buffer is sorted and below threshold
    /// unless empty.
    pub proof fn lemma_active_sorted(&self)
        requires
            self.wf(),
        ensures
            crate::memtable::assoc_sorted(self.active_view()),
            self.spec_active_bytes() == crate::memtable::cost_sum(self.active_view()),
            self.spec_active_bytes() < self.spec_max_bytes() || self.active_view().len() == 0,
    {
        crate::memtable::lemma_memtable_wf_sorted(self.active);
        crate::memtable::lemma_memtable_bytes_is_cost(self.active);
    }

    pub fn with_capacity(max_bytes: usize) -> (r: MemTableSet)
        ensures
            r.wf(),
            r.spec_max_bytes() == max_bytes,
            r.active_view().len() == 0,
            r.imm_views().len() == 0,
            forall|k: Seq<u8>| r.set_get(k) is None,
    {
        let r = MemTableSet { active: MemTable::new(max_bytes), immutables: Vec::new(), max_bytes };
        proof {
            assert(r.imm_views() =~= Seq::<Seq<(Seq<u8>, EntrySpec)>>::empty());
        }
        r
    }

    pub fn active_bytes(&self) -> (r: usize)
        ensures
            r == self.spec_active_bytes(),
    {
        self.active.bytes_used()
    }

    pub fn immutables_len(&self) -> (r: usize)
        ensures
            r == self.imm_views().len(),
    {
        self.immutables.len()
    }

    /// Writes into the active buffer; freezes it when the byte threshold is
    /// crossed. Returns whether a freeze happened, in which case the frozen
    /// buffer is the newest in the queue.
    pub fn put(&mut self, key: &[u8], value: &[u8]) -> (rotated: bool)
        requires
            old(self).wf(),
            old(self).spec_active_bytes() + 9 + key@.len() + value@.len() <= usize::MAX,
        ensures
            final(self).wf(),
            final(self).spec_max_bytes() == old(self).spec_max_bytes(),
            final(self).set_get(key@) == Some(EntrySpec::Put(value@)),
            forall|k2: Seq<u8>|
                k2 != key@ ==> #[trigger] final(self).set_get(k2) == old(self).set_get(k2),
            !rotated ==> final(self).imm_views() == old(self).imm_views()
                && final(self).active_view() == assoc_put(
                old(self).active_view(),
                key@,
                EntrySpec::Put(value@),
            ),
            rotated ==> final(self).active_view().len() == 0 && final(self).imm_views() == old(self).imm_views().push(assoc_put(old(self).active_view(), key@, EntrySpec::Put(value@))),
            rotated == (crate::memtable::cost_sum(
                assoc_put(old(self).active_view(), key@, EntrySpec::Put(value@)),
            ) >= old(self).spec_max_bytes()),
    {
        proof {
            crate::memtable::lemma_memtable_wf_sorted(self.active);
            crate::memtable::lemma_assoc_put_sorted(self.active@, key@, EntrySpec::Put(value@));
            crate::memtable::lemma_assoc_put_nonempty(self.active@, key@, EntrySpec::Put(value@));
        }
        self.active.put(key, value);
        proof {
            crate::memtable::lemma_memtable_bytes_is_cost(self.active);
        }
        self.freeze_if_over()
    }

    /// Records a tombstone in the active buffer; freezes on threshold like
    /// `put`.
    pub fn delete(&mut self, key: &[u8]) -> (rotated: bool)
        requires
            old(self).wf(),
            old(self).spec_active_bytes() + 9 + key@.len() <= usize::MAX,
        ensures
            final(self).wf(),
            final(self).spec_max_bytes() == old(self).spec_max_bytes(),
            final(self).set_get(key@) == Some(EntrySpec::Delete),
            forall|k2: Seq<u8>|
                k2 != key@ ==> #[trigger] final(self).set_get(k2) == old(self).set_get(k2),
            !rotated ==> final(self).imm_views() == old(self).imm_views()
                && final(self).active_view() == assoc_put(
                old(self).active_view(),
                key@,
                EntrySpec::Delete,
            ),
            rotated ==> final(self).active_view().len() == 0 && final(self).imm_views() == old(self).imm_views().push(assoc_put(old(self).active_view(), key@, EntrySpec::Delete)),
            rotated == (crate::memtable::cost_sum(
                assoc_put(old(self).active_view(), key@, EntrySpec::Delete),
            ) >= old(self).spec_max_bytes()),
    {
        proof {
            crate::memtable::lemma_memtable_wf_sorted(self.active);
            crate::memtable::lemma_assoc_put_sorted(self.active@, key@, EntrySpec::Delete);
            crate::memtable::lemma_assoc_put_nonempty(self.active@, key@, EntrySpec::Delete);
        }
        self.active.delete(key);
        proof {
            crate::memtable::lemma_memtable_bytes_is_cost(self.active);
        }
        self.freeze_if_over()
    }

    fn freeze_if_over(&mut self) -> (rotated: bool)
        requires
            old(self).buffers_wf(),
        ensures
            final(self).wf(),
            final(self).spec_max_bytes() == old(self).spec_max_bytes(),
            forall|k2: Seq<u8>| #[trigger] final(self).set_get(k2) == old(self).set_get(k2),
            !rotated ==> final(self).imm_views() == old(self).imm_views() && final(self).active_view() == old(self).active_view(),
            rotated ==> final(self).active_view().len() == 0 && final(self).imm_views() == old(self).imm_views().push(old(self).active_view()),
            rotated == (old(self).spec_active_bytes() >= old(self).spec_max_bytes() && old(self).active_view().len() > 0),
    {
        if self.active.over_threshold() {
            self.rotate()
        } else {
            false
        }
    }

    /// Freezes the active buffer: replaces it with a fresh empty one and
    /// pushes the frozen buffer onto the immutable queue. A no-op when the
    /// active buffer is empty.
    pub fn rotate(&mut self) -> (rotated: bool)
        requires
            old(self).buffers_wf(),
        ensures
            final(self).wf(),
            final(self).spec_max_bytes() == old(self).spec_max_bytes(),
            forall|k2: Seq<u8>| #[trigger] final(self).set_get(k2) == old(self).set_get(k2),
            rotated == (old(self).active_view().len() > 0),
            !rotated ==> final(self).imm_views() == old(self).imm_views() && final(self).active_view() == old(self).active_view(),
            rotated ==> final(self).active_view().len() == 0 && final(self).imm_views() == old(self).imm_views().push(old(self).active_view()),
    {
        if self.active.is_empty() {
            return false;
        }
        let mut fresh = MemTable::new(self.max_bytes);
        core::mem::swap(&mut self.active, &mut fresh);
        self.immutables.push(fresh);
        proof {
            assert(self.imm_views() =~= old(self).imm_views().push(old(self).active_view()));
            assert forall|k2: Seq<u8>| #[trigger] self.set_get(k2) == old(self).set_get(k2) by {
                assert(assoc_get(self.active_view(), k2) is None);
                assert(self.imm_views().last() == old(self).active_view());
                assert(self.imm_views().drop_last() =~= old(self).imm_views());
            }
        }
        true
    }

    /// Removes and returns the newest frozen buffer, once the flush pipeline
    /// has made it durable.
    pub fn pop_immutable(&mut self) -> (r: Option<MemTable>)
        requires
            old(self).wf(),
        ensures
            final(self).wf(),
            final(self).spec_max_bytes() == old(self).spec_max_bytes(),
            final(self).active_view() == old(self).active_view(),
            match r {
                Some(m) => old(self).imm_views().len() > 0 && m.wf() && m@ == old(self).imm_views().last() && final(self).imm_views() == old(self).imm_views().drop_last(),
                None => old(self).imm_views().len() == 0 && final(self).imm_views() == old(self).imm_views(),
            },
    {
        let r = self.immutables.pop();
        proof {
            if old(self).immutables@.len() > 0 {
                assert(self.imm_views() =~= old(self).imm_views().drop_last());
            } else {
                assert(self.imm_views() =~= old(self).imm_views());
            }
        }
        r
    }

    /// Looks `key` up in the active buffer, then the frozen ones newest
    /// first.
    pub fn get(&self, key: &[u8]) -> (r: Option<&Entry>)
        requires
            self.wf(),
        ensures
            match r {
                Some(e) => self.set_get(key@) == Some(e@),
                None => self.set_get(key@) is None,
            },
    {
        if let Some(e) = self.active.get(key) {
            return Some(e);
        }
        let n = self.immutables.len();
        let mut i: usize = n;
        while i > 0
            invariant
                self.wf(),
                i <= n,
                n == self.imm_views().len(),
                assoc_get(self.active_view(), key@) is None,
                forall|j: int|
                    i <= j < n ==> assoc_get(#[trigger] self.imm_views()[j], key@) is None,
            decreases i,
        {
            i = i - 1;
            if let Some(e) = self.immutables[i].get(key) {
                proof {
                    lemma_imm_get_hit(self.imm_views(), key@, i as int);
                }
                return Some(e);
            }
        }
        proof {
            lemma_imm_get_none(self.imm_views(), key@);
        }
        None
    }
}

} // verus!
