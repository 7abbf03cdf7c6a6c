//! The replicated value types over the key-value path: read the current
//! blob, decode, mutate, encode, write back.

use vstd::prelude::*;

use crate::engine::{FlushedTable, LsmEngine, LsmError};
use crate::gset::{elems_sorted, gset_encode, gset_parse, GSet};
use crate::memtable::EntrySpec;
use crate::rga::{
    ids_sorted, last_find, rga_encode, rga_find, rga_parse, rga_visible, ElementId, ElementSpec,
    Rga,
};
use crate::sst_builder::TableId;
use crate::sst_reader::SsTableReader;

verus! {

/// The blob the store currently holds for `k`; a missing key decodes like
/// an empty blob.
pub open spec fn blob_at(e: &LsmEngine, k: Seq<u8>) -> Seq<u8> {
    match e.kv_get(k) {
        Some(v) => v,
        None => Seq::empty(),
    }
}

impl LsmEngine {
    /// Adds `elem` to the grow-only set stored under `key`: fetch, decode
    /// leniently, insert, encode, write back. Afterwards `key` holds the
    /// encoding of the normalized set extended by `elem`. Refused, with
    /// the store unchanged, exactly when the element or the re-encoded
    /// set outgrows the codec's length fields or one write.
    pub fn gset_add(&mut self, key: Vec<u8>, elem: Vec<u8>) -> (r: Result<
        Option<FlushedTable>,
        LsmError,
    >)
        requires
            old(self).wf(),
            old(self).spec_next_table_id() < u64::MAX,
            9 + key@.len() <= 0x4000000,
        ensures
            final(self).wf(),
            old(self).tables_good() ==> final(self).tables_good(),
            old(self).tables_good() ==> ((r is Err) <==> gset_add_refused(
                blob_at(old(self), key@),
                key@,
                elem@,
            )),
            old(self).tables_good() ==> match r {
                Ok(_) => (exists|s: Seq<Seq<u8>>|
                    #[trigger] elems_sorted(s) && s.to_set() == gset_parse(
                        blob_at(old(self), key@),
                    ).to_set().insert(elem@) && s.len() < 0x100000000 && (forall|m: int|
                        0 <= m < s.len() ==> (#[trigger] s[m]).len() < 0x100000000)
                        && final(self).kv_get(key@) == Some(gset_encode(s))) && (forall|k2: Seq<u8>|
                    k2 != key@ ==> #[trigger] final(self).kv_get(k2) == old(self).kv_get(k2)),
                Err(e) => e == LsmError::TooLarge && (forall|k2: Seq<u8>| #[trigger]
                    final(self).kv_get(k2) == old(self).kv_get(k2)),
            },
    {
        let cur = match self.get(key.as_slice()) {
            Ok(v) => v,
            Err(e) => {
                return Err(e);
            },
        };
        let ghost base: Seq<u8> = match &cur {
            Some(v) => v@,
            None => Seq::empty(),
        };
        let mut gs = match &cur {
            Some(bytes) => GSet::from_bytes(bytes.as_slice()),
            None => GSet::new(),
        };
        proof {
            if cur is None {
                assert(gset_parse(base) =~= Seq::<Seq<u8>>::empty());
                assert(gs@.to_set() =~= gset_parse(base).to_set());
            }
            if self.tables_good() {
                assert(base == blob_at(old(self), key@));
            }
        }
        if elem.len() as u64 >= 0x100000000u64 {
            return Err(LsmError::TooLarge);
        }
        if gs.len() as u64 > 0xFFFFFFFEu64 {
            proof {
                assert(elems_sorted(gs@) && gs@.to_set() == gset_parse(base).to_set() && gs@.len()
                    > 0xFFFFFFFE);
            }
            return Err(LsmError::TooLarge);
        }
        let ghost gs_before = gs@;
        let ghost elem_view = elem@;
        gs.insert(elem);
        proof {
            assert(gs@.to_set() == gset_parse(base).to_set().insert(elem_view));
            assert forall|m: int| 0 <= m < gs@.len() implies (#[trigger] gs@[m]).len()
                < 0x100000000 by {
                assert(gs@.contains(gs@[m]));
                assert(gs@.to_set().contains(gs@[m]));
                if gs@[m] != elem_view {
                    assert(gset_parse(base).to_set().contains(gs@[m]));
                    assert(gset_parse(base).contains(gs@[m]));
                    let w = choose|w: int|
                        0 <= w < gset_parse(base).len() && gset_parse(base)[w] == gs@[m];
                    if base.len() >= 4 {
                        crate::gset::lemma_gset_parse_items_lens(
                            base,
                            4,
                            crate::wire::be32_val(base.subrange(0, 4)),
                        );
                        assert(gset_parse(base)[w].len() < 0x100000000);
                    }
                }
            }
        }
        let blob = gs.to_bytes();
        if blob.len() > 0x8000000 - 9 - key.len() {
            proof {
                assert(elems_sorted(gs@) && gs@.to_set() == gset_parse(base).to_set().insert(
                    elem_view,
                ) && gset_encode(gs@).len() + 9 + key@.len() > 0x8000000);
            }
            return Err(LsmError::TooLarge);
        }
        proof {
            // Success is owed: no refusal condition holds. The canonical
            // decoded set is unique, so any sorted witness of either
            // existential equals the one in hand and obeys its bound.
            assert forall|s: Seq<Seq<u8>>|
                #[trigger] elems_sorted(s) && s.to_set() == gset_parse(base).to_set() implies s.len()
                <= 0xFFFFFFFE by {
                crate::gset::lemma_sorted_canonical(s, gs_before);
            }
            assert forall|s: Seq<Seq<u8>>|
                #[trigger] elems_sorted(s) && s.to_set() == gset_parse(base).to_set().insert(
                    elem_view,
                ) implies gset_encode(s).len() + 9 + key@.len() <= 0x8000000 by {
                crate::gset::lemma_sorted_canonical(s, gs@);
            }
            assert(!gset_add_refused(base, key@, elem_view));
        }
        let ft = self.put(key.as_slice(), blob.as_slice());
        Ok(ft)
    }

    /// Reads the grow-only set under `key` as the union of every layer
    /// that holds a blob for it: unlike a point read, this does not stop
    /// at the first hit, so sets shadowed by newer layers still count.
    pub fn gset_get(&self, key: &[u8]) -> (r: Result<Vec<Vec<u8>>, LsmError>)
        requires
            self.wf(),
        ensures
            self.tables_good() ==> match r {
                Ok(vs) => elems_sorted(vs@.map_values(|v: Vec<u8>| v@)) && vs@.map_values(
                    |v: Vec<u8>| v@,
                ).to_set() == gset_layers_union(self, key@),
                Err(_) => false,
            },
    {
        let mut acc = GSet::new();
        if let Some(e) = self.memtables_hit(key) {
            let gs = GSet::from_bytes(e.as_slice());
            acc.merge(&gs);
        }
        proof {
            if self.tables_good() {
                assert(acc@.to_set() =~= mem_blob_set(self, key@));
            }
        }
        let n = self.tables_len();
        let mut i: usize = n;
        proof {
            assert(self.tables_view().subrange(0, n as int) =~= self.tables_view());
        }
        while i > 0
            invariant
                self.wf(),
                i <= n,
                n == self.tables_view().len(),
                acc.wf(),
                self.tables_good() ==> gset_layers_union(self, key@) =~= acc@.to_set().union(
                    gset_tables_union(self.tables_view().subrange(0, i as int), key@),
                ),
            decreases i,
        {
            i = i - 1;
            let res = self.table_get_at(i, key);
            proof {
                if self.tables_good() {
                    assert(self.tables_view().subrange(0, i + 1).last() == self.tables_view()[
                        i as int]);
                    assert(self.tables_view().subrange(0, i + 1).drop_last()
                        =~= self.tables_view().subrange(0, i as int));
                }
            }
            match res {
                Ok(Some(crate::memtable::Entry::Put(v))) => {
                    let gs = GSet::from_bytes(v.as_slice());
                    acc.merge(&gs);
                },
                Ok(_) => {},
                Err(e) => {
                    return Err(LsmError::Table(e));
                },
            }
            proof {
                if self.tables_good() {
                    assert(gset_layers_union(self, key@) =~= acc@.to_set().union(
                        gset_tables_union(self.tables_view().subrange(0, i as int), key@),
                    ));
                }
            }
        }
        proof {
            if self.tables_good() {
                assert(self.tables_view().subrange(0, 0) =~= Seq::<
                    (TableId, SsTableReader),
                >::empty());
                assert(gset_tables_union(self.tables_view().subrange(0, 0), key@) =~= Set::<
                    Seq<u8>,
                >::empty());
                assert(gset_layers_union(self, key@) =~= acc@.to_set());
            }
        }
        Ok(acc.elements())
    }

    /// Inserts `value` into the replicated array under `key`, anchored
    /// after `prev`, under the element identifier `(actor, counter)`; a
    /// duplicate identifier leaves the array unchanged. Refused, with the
    /// store unchanged, exactly when the value or the re-encoded array
    /// outgrows the codec's length fields or one write.
    pub fn rga_insert_after(
        &mut self,
        key: &[u8],
        prev: Option<ElementId>,
        value: Vec<u8>,
        actor: u64,
        counter: u64,
    ) -> (r: Result<Option<FlushedTable>, LsmError>)
        requires
            old(self).wf(),
            old(self).spec_next_table_id() < u64::MAX,
            9 + key@.len() <= 0x4000000,
        ensures
            final(self).wf(),
            old(self).tables_good() ==> final(self).tables_good(),
            old(self).tables_good() ==> ((r is Err) <==> rga_insert_refused(
                blob_at(old(self), key@),
                key@,
                ElementId { actor, counter },
                prev,
                value@,
            )),
            old(self).tables_good() ==> match r {
                Ok(_) => (exists|g: Seq<ElementSpec>|
                    #[trigger] ids_sorted(g) && (forall|id2: ElementId| #[trigger]
                        rga_find(g, id2) == rga_insert_outcome(
                            blob_at(old(self), key@),
                            ElementId { actor, counter },
                            prev,
                            value@,
                            id2,
                        )) && g.len() < 0x100000000 && (forall|m: int|
                        0 <= m < g.len() ==> (#[trigger] g[m]).value.len() < 0x100000000)
                        && final(self).kv_get(key@) == Some(rga_encode(g))) && (
                forall|k2: Seq<u8>|
                    k2 != key@ ==> #[trigger] final(self).kv_get(k2) == old(self).kv_get(k2)),
                Err(e) => e == LsmError::TooLarge && (forall|k2: Seq<u8>| #[trigger]
                    final(self).kv_get(k2) == old(self).kv_get(k2)),
            },
    {
        let cur = match self.get(key) {
            Ok(v) => v,
            Err(e) => {
                return Err(e);
            },
        };
        let ghost base: Seq<u8> = match &cur {
            Some(v) => v@,
            None => Seq::empty(),
        };
        let mut rga = match &cur {
            Some(bytes) => Rga::from_bytes(bytes.as_slice()),
            None => Rga::new(),
        };
        proof {
            if cur is None {
                assert(rga_parse(base) =~= Seq::<ElementSpec>::empty());
                assert forall|id2: ElementId| #[trigger] rga_find(rga@, id2) == last_find(
                    rga_parse(base),
                    id2,
                ) by {
                    crate::rga::lemma_rga_find_none(rga@, id2);
                }
            }
            if self.tables_good() {
                assert(base == blob_at(old(self), key@));
            }
        }
        if value.len() as u64 >= 0x100000000u64 {
            return Err(LsmError::TooLarge);
        }
        if rga.len() as u64 > 0xFFFFFFFEu64 {
            proof {
                assert(ids_sorted(rga@) && (forall|id2: ElementId| #[trigger]
                    rga_find(rga@, id2) == last_find(rga_parse(base), id2)) && rga@.len()
                    > 0xFFFFFFFE);
            }
            return Err(LsmError::TooLarge);
        }
        let ghost rga_before = rga@;
        let id = ElementId::new(actor, counter);
        let ghost value_view = value@;
        rga.insert(id, prev, value);
        proof {
            lemma_blob_values_bounded(rga@, base, id, Some((prev, value_view)));
            assert(forall|id2: ElementId| #[trigger] rga_find(rga@, id2) == rga_insert_outcome(
                base,
                id,
                prev,
                value_view,
                id2,
            ));
        }
        let blob = rga.to_bytes();
        if blob.len() > 0x8000000 - 9 - key.len() {
            proof {
                assert(ids_sorted(rga@) && (forall|id2: ElementId| #[trigger]
                    rga_find(rga@, id2) == rga_insert_outcome(base, id, prev, value_view, id2))
                    && rga_encode(rga@).len() + 9 + key@.len() > 0x8000000);
            }
            return Err(LsmError::TooLarge);
        }
        proof {
            // Success is owed: no refusal condition holds. The canonical
            // decoded structure is unique, so any sorted witness of either
            // existential equals the one in hand and obeys its bound.
            assert forall|g: Seq<ElementSpec>|
                #[trigger] ids_sorted(g) && (forall|id2: ElementId| #[trigger]
                    rga_find(g, id2) == last_find(rga_parse(base), id2)) implies g.len()
                <= 0xFFFFFFFE by {
                crate::rga::lemma_rga_canonical(g, rga_before);
            }
            assert forall|g: Seq<ElementSpec>|
                #[trigger] ids_sorted(g) && (forall|id2: ElementId| #[trigger]
                    rga_find(g, id2) == rga_insert_outcome(base, id, prev, value_view, id2))
                implies rga_encode(g).len() + 9 + key@.len() <= 0x8000000 by {
                crate::rga::lemma_rga_canonical(g, rga@);
            }
            assert(!rga_insert_refused(base, key@, id, prev, value_view));
        }
        let ft = self.put(key, blob.as_slice());
        Ok(ft)
    }

    /// Tombstones element `id` in the replicated array under `key`; if the
    /// key holds nothing, there is nothing to delete and the store is
    /// unchanged. Refused, with the store unchanged, exactly when the
    /// stored array or its re-encoding outgrows the codec's length fields
    /// or one write.
    pub fn rga_delete(&mut self, key: &[u8], id: ElementId) -> (r: Result<
        Option<FlushedTable>,
        LsmError,
    >)
        requires
            old(self).wf(),
            old(self).spec_next_table_id() < u64::MAX,
            9 + key@.len() <= 0x4000000,
        ensures
            final(self).wf(),
            old(self).tables_good() ==> final(self).tables_good(),
            old(self).tables_good() ==> ((r is Err) <==> (old(self).kv_get(key@) is Some
                && rga_delete_refused(blob_at(old(self), key@), key@, id))),
            old(self).tables_good() ==> match r {
                Ok(_) => (old(self).kv_get(key@) is None ==> (forall|k2: Seq<u8>| #[trigger]
                    final(self).kv_get(k2) == old(self).kv_get(k2))) && (old(self).kv_get(key@)
                    is Some ==> (exists|g: Seq<ElementSpec>|
                    #[trigger] ids_sorted(g) && (forall|id2: ElementId| #[trigger]
                        rga_find(g, id2) == rga_delete_outcome(
                            blob_at(old(self), key@),
                            id,
                            id2,
                        )) && g.len() < 0x100000000 && (forall|m: int|
                        0 <= m < g.len() ==> (#[trigger] g[m]).value.len() < 0x100000000)
                        && final(self).kv_get(key@) == Some(rga_encode(g))) && (
                forall|k2: Seq<u8>|
                    k2 != key@ ==> #[trigger] final(self).kv_get(k2) == old(self).kv_get(k2))),
                Err(e) => e == LsmError::TooLarge && (forall|k2: Seq<u8>| #[trigger]
                    final(self).kv_get(k2) == old(self).kv_get(k2)),
            },
    {
        let cur = match self.get(key) {
            Ok(v) => v,
            Err(e) => {
                return Err(e);
            },
        };
        let bytes = match cur {
            Some(b) => b,
            None => {
                return Ok(None);
            },
        };
        let ghost base = bytes@;
        proof {
            if self.tables_good() {
                assert(base == blob_at(old(self), key@));
            }
        }
        let mut rga = Rga::from_bytes(bytes.as_slice());
        if rga.len() as u64 > 0xFFFFFFFEu64 {
            proof {
                assert(ids_sorted(rga@) && (forall|id2: ElementId| #[trigger]
                    rga_find(rga@, id2) == last_find(rga_parse(base), id2)) && rga@.len()
                    > 0xFFFFFFFE);
            }
            return Err(LsmError::TooLarge);
        }
        let ghost rga_before = rga@;
        rga.delete(id);
        proof {
            lemma_blob_values_bounded(rga@, base, id, None);
            assert(forall|id2: ElementId| #[trigger] rga_find(rga@, id2) == rga_delete_outcome(
                base,
                id,
                id2,
            ));
        }
        let blob = rga.to_bytes();
        if blob.len() > 0x8000000 - 9 - key.len() {
            proof {
                assert(ids_sorted(rga@) && (forall|id2: ElementId| #[trigger]
                    rga_find(rga@, id2) == rga_delete_outcome(base, id, id2)) && rga_encode(
                    rga@,
                ).len() + 9 + key@.len() > 0x8000000);
            }
            return Err(LsmError::TooLarge);
        }
        proof {
            // Success is owed: no refusal condition holds; canonicity makes
            // each existential's witness unique.
            assert forall|g: Seq<ElementSpec>|
                #[trigger] ids_sorted(g) && (forall|id2: ElementId| #[trigger]
                    rga_find(g, id2) == last_find(rga_parse(base), id2)) implies g.len()
                <= 0xFFFFFFFE by {
                crate::rga::lemma_rga_canonical(g, rga_before);
            }
            assert forall|g: Seq<ElementSpec>|
                #[trigger] ids_sorted(g) && (forall|id2: ElementId| #[trigger]
                    rga_find(g, id2) == rga_delete_outcome(base, id, id2)) implies rga_encode(
                g,
            ).len() + 9 + key@.len() <= 0x8000000 by {
                crate::rga::lemma_rga_canonical(g, rga@);
            }
            assert(!rga_delete_refused(base, key@, id));
        }
        let ft = self.put(key, blob.as_slice());
        Ok(ft)
    }

    /// The visible sequence of the replicated array under `key`: the
    /// deterministic traversal of the decoded structure, empty when the
    /// key holds nothing.
    pub fn rga_get_visible(&self, key: &[u8]) -> (r: Result<Vec<Vec<u8>>, LsmError>)
        requires
            self.wf(),
        ensures
            self.tables_good() ==> match r {
                Ok(vs) => exists|g: Seq<ElementSpec>|
                    #[trigger] ids_sorted(g) && (forall|id2: ElementId| #[trigger]
                        rga_find(g, id2) == last_find(rga_parse(blob_at(self, key@)), id2))
                        && g.len() < 0x100000000 && (forall|m: int|
                        0 <= m < g.len() ==> (#[trigger] g[m]).value.len() < 0x100000000)
                        && vs@.map_values(|v: Vec<u8>| v@) == rga_visible(g),
                Err(_) => false,
            },
    {
        let cur = match self.get(key) {
            Ok(v) => v,
            Err(e) => {
                return Err(e);
            },
        };
        let rga = match &cur {
            Some(bytes) => Rga::from_bytes(bytes.as_slice()),
            None => Rga::new(),
        };
        proof {
            if self.tables_good() {
                if cur is None {
                    assert(rga_parse(blob_at(self, key@)) =~= Seq::<ElementSpec>::empty());
                    assert forall|id2: ElementId| #[trigger] rga_find(rga@, id2) == last_find(
                        rga_parse(blob_at(self, key@)),
                        id2,
                    ) by {
                        crate::rga::lemma_rga_find_none(rga@, id2);
                    }
                }
                assert forall|id2: ElementId|
                    match #[trigger] rga_find(rga@, id2) {
                        Some(e) => e.value.len() < 0x100000000,
                        None => true,
                    } by {
                    lemma_parse_value_bounded(blob_at(self, key@), id2);
                }
                crate::rga::lemma_rga_values_from_find(rga@);
            }
        }
        Ok(rga.visible_sequence())
    }
}

/// What the array's lookup answers for `id2` after inserting `(id, prev,
/// value)` into the decoded blob: a present identifier is untouched.
pub open spec fn rga_insert_outcome(
    base: Seq<u8>,
    id: ElementId,
    prev: Option<ElementId>,
    value: Seq<u8>,
    id2: ElementId,
) -> Option<ElementSpec> {
    if id2 == id && last_find(rga_parse(base), id) is None {
        Some(ElementSpec { id, prev, value, deleted: false })
    } else {
        last_find(rga_parse(base), id2)
    }
}

/// What the array's lookup answers for `id2` after tombstoning `id` in
/// the decoded blob.
pub open spec fn rga_delete_outcome(base: Seq<u8>, id: ElementId, id2: ElementId) -> Option<
    ElementSpec,
> {
    if id2 == id {
        match last_find(rga_parse(base), id) {
            Some(e) => Some(
                ElementSpec { id: e.id, prev: e.prev, value: e.value, deleted: true },
            ),
            None => Some(ElementSpec { id, prev: None, value: Seq::empty(), deleted: true }),
        }
    } else {
        last_find(rga_parse(base), id2)
    }
}

/// Every element of a structure whose lookups answer either a decoded
/// record, the freshly inserted element, or a tombstone placeholder has a
/// value fitting its length field.
proof fn lemma_blob_values_bounded(
    g: Seq<ElementSpec>,
    base: Seq<u8>,
    id: ElementId,
    ins: Option<(Option<ElementId>, Seq<u8>)>,
)
    requires
        ids_sorted(g),
        match ins {
            Some((prev, value)) => value.len() < 0x100000000 && forall|id2: ElementId| #[trigger]
                rga_find(g, id2) == rga_insert_outcome(base, id, prev, value, id2),
            None => forall|id2: ElementId| #[trigger]
                rga_find(g, id2) == rga_delete_outcome(base, id, id2),
        },
    ensures
        forall|m: int| 0 <= m < g.len() ==> (#[trigger] g[m]).value.len() < 0x100000000,
{
    assert forall|id2: ElementId|
        match #[trigger] rga_find(g, id2) {
            Some(e) => e.value.len() < 0x100000000,
            None => true,
        } by {
        lemma_parse_value_bounded(base, id2);
    }
    crate::rga::lemma_rga_values_from_find(g);
}

/// Whatever the decoded blob answers for an identifier has a bounded
/// value.
proof fn lemma_parse_value_bounded(base: Seq<u8>, id2: ElementId)
    ensures
        match last_find(rga_parse(base), id2) {
            Some(e) => e.value.len() < 0x100000000,
            None => true,
        },
{
    if last_find(rga_parse(base), id2) is Some {
        crate::rga::lemma_last_find_witness(rga_parse(base), id2);
        if base.len() >= 4 {
            crate::rga::lemma_rga_parse_items_lens(
                base,
                4,
                crate::wire::be32_val(base.subrange(0, 4)),
            );
        }
    }
}

/// When `gset_add` refuses: the element does not fit its length field,
/// the stored set is at the count cap, or the re-encoded blob would not
/// fit one write. The canonical decoded set is unique, so the existential
/// forms are exact.
pub open spec fn gset_add_refused(base: Seq<u8>, key: Seq<u8>, elem: Seq<u8>) -> bool {
    ||| elem.len() >= 0x100000000
    ||| (exists|s: Seq<Seq<u8>>|
        #[trigger] elems_sorted(s) && s.to_set() == gset_parse(base).to_set() && s.len()
            > 0xFFFFFFFE)
    ||| (exists|s: Seq<Seq<u8>>|
        #[trigger] elems_sorted(s) && s.to_set() == gset_parse(base).to_set().insert(elem)
            && gset_encode(s).len() + 9 + key.len() > 0x8000000)
}

/// The stored array is at the count cap: its canonical decoding holds too
/// many elements for the count field.
pub open spec fn rga_stored_too_many(base: Seq<u8>) -> bool {
    exists|g: Seq<ElementSpec>|
        #[trigger] ids_sorted(g) && (forall|id2: ElementId| #[trigger]
            rga_find(g, id2) == last_find(rga_parse(base), id2)) && g.len() > 0xFFFFFFFE
}

/// When `rga_insert_after` refuses: the value does not fit its length
/// field, the stored array is at the count cap, or the re-encoded blob
/// would not fit one write.
pub open spec fn rga_insert_refused(
    base: Seq<u8>,
    key: Seq<u8>,
    id: ElementId,
    prev: Option<ElementId>,
    value: Seq<u8>,
) -> bool {
    ||| value.len() >= 0x100000000
    ||| rga_stored_too_many(base)
    ||| (exists|g: Seq<ElementSpec>|
        #[trigger] ids_sorted(g) && (forall|id2: ElementId| #[trigger]
            rga_find(g, id2) == rga_insert_outcome(base, id, prev, value, id2)) && rga_encode(
            g,
        ).len() + 9 + key.len() > 0x8000000)
}

/// When `rga_delete` refuses, given the key holds a blob: the stored
/// array is at the count cap, or the re-encoded blob would not fit one
/// write.
pub open spec fn rga_delete_refused(base: Seq<u8>, key: Seq<u8>, id: ElementId) -> bool {
    ||| rga_stored_too_many(base)
    ||| (exists|g: Seq<ElementSpec>|
        #[trigger] ids_sorted(g) && (forall|id2: ElementId| #[trigger]
            rga_find(g, id2) == rga_delete_outcome(base, id, id2)) && rga_encode(g).len() + 9
            + key.len() > 0x8000000)
}

/// Union over the tables, newest first, of the decoded set blobs stored
/// for `k`.
pub open spec fn gset_tables_union(
    ts: Seq<(TableId, SsTableReader)>,
    k: Seq<u8>,
) -> Set<Seq<u8>>
    decreases ts.len(),
{
    if ts.len() == 0 {
        Set::empty()
    } else {
        (match crate::memtable::assoc_get(
            crate::sst_format::records_of_table(ts.last().1.data_view()),
            k,
        ) {
            Some(EntrySpec::Put(v)) => gset_parse(v).to_set(),
            _ => Set::empty(),
        }).union(gset_tables_union(ts.drop_last(), k))
    }
}

/// The memtable layers' contribution to the union.
pub open spec fn mem_blob_set(e: &LsmEngine, k: Seq<u8>) -> Set<Seq<u8>> {
    match e.mem_view().set_get(k) {
        Some(EntrySpec::Put(v)) => gset_parse(v).to_set(),
        _ => Set::empty(),
    }
}

/// Union of the decoded set blobs every layer stores for `k`.
pub open spec fn gset_layers_union(e: &LsmEngine, k: Seq<u8>) -> Set<Seq<u8>> {
    mem_blob_set(e, k).union(gset_tables_union(e.tables_view(), k))
}

} // verus!
