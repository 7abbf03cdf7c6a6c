//! The replicated growable array CRDT: elements keyed by `(actor, counter)`
//! identifiers, anchored to a predecessor, with tombstones, a deterministic
//! depth-first traversal, and a big-endian codec.

use vstd::prelude::*;

use crate::wire::{
    be32_bytes, be32_val, be64_bytes, be64_val, copy_bytes, lemma_be32_roundtrip,
    lemma_be64_roundtrip, push_be32, push_be64, push_bytes, read_be32, read_be64,
};

verus! {

/// Unique identifier for an RGA element, ordered by actor, then counter.
#[derive(Debug, Clone, Copy, PartialEq, Eq, Structural, Hash)]
pub struct ElementId {
    pub actor: u64,
    pub counter: u64,
}

impl ElementId {
    pub fn new(actor: u64, counter: u64) -> (r: ElementId)
        ensures
            r.actor == actor,
            r.counter == counter,
    {
        ElementId { actor, counter }
    }
}

/// The total order on identifiers: actor first, then counter.
pub open spec fn id_lt(a: ElementId, b: ElementId) -> bool {
    a.actor < b.actor || (a.actor == b.actor && a.counter < b.counter)
}

/// Three-way identifier comparison used by the ordered storage.
fn id_less(a: ElementId, b: ElementId) -> (r: bool)
    ensures
        r == id_lt(a, b),
{
    a.actor < b.actor || (a.actor == b.actor && a.counter < b.counter)
}

/// One element: its identifier, the identifier it was inserted after (the
/// sentinel head when `None`), its value, and its tombstone flag.
#[derive(Debug)]
pub struct Element {
    pub id: ElementId,
    pub prev: Option<ElementId>,
    pub value: Vec<u8>,
    pub deleted: bool,
}

/// Mathematical model of an [`Element`].
pub struct ElementSpec {
    pub id: ElementId,
    pub prev: Option<ElementId>,
    pub value: Seq<u8>,
    pub deleted: bool,
}

impl View for Element {
    type V = ElementSpec;

    open spec fn view(&self) -> ElementSpec {
        ElementSpec { id: self.id, prev: self.prev, value: self.value@, deleted: self.deleted }
    }
}

/// Identifiers in strictly ascending order (hence unique).
pub open spec fn ids_sorted(s: Seq<ElementSpec>) -> bool {
    forall|i: int, j: int| 0 <= i < j < s.len() ==> id_lt(#[trigger] s[i].id, #[trigger] s[j].id)
}

/// Lookup by identifier, first match.
pub open spec fn rga_find(s: Seq<ElementSpec>, id: ElementId) -> Option<ElementSpec>
    decreases s.len(),
{
    if s.len() == 0 {
        None
    } else if s[0].id == id {
        Some(s[0])
    } else {
        rga_find(s.drop_first(), id)
    }
}

pub proof fn lemma_rga_find_index(s: Seq<ElementSpec>, id: ElementId, i: int)
    requires
        0 <= i < s.len(),
        s[i].id == id,
        forall|j: int| 0 <= j < i ==> (#[trigger] s[j]).id != id,
    ensures
        rga_find(s, id) == Some(s[i]),
    decreases i,
{
    if i > 0 {
        lemma_rga_find_index(s.drop_first(), id, i - 1);
    }
}

pub proof fn lemma_rga_find_none(s: Seq<ElementSpec>, id: ElementId)
    requires
        forall|j: int| 0 <= j < s.len() ==> (#[trigger] s[j]).id != id,
    ensures
        rga_find(s, id) is None,
    decreases s.len(),
{
    if s.len() > 0 {
        lemma_rga_find_none(s.drop_first(), id);
    }
}

/// A hit returns an element carrying the searched identifier.
pub proof fn lemma_rga_find_some_id(s: Seq<ElementSpec>, id: ElementId)
    ensures
        match rga_find(s, id) {
            Some(e) => e.id == id,
            None => true,
        },
    decreases s.len(),
{
    if s.len() > 0 && s[0].id != id {
        lemma_rga_find_some_id(s.drop_first(), id);
    }
}

/// In a sorted sequence every identifier occurs at most once, so a hit
/// pins the index.
pub proof fn lemma_rga_find_unique(s: Seq<ElementSpec>, id: ElementId, i: int)
    requires
        ids_sorted(s),
        0 <= i < s.len(),
        s[i].id == id,
    ensures
        rga_find(s, id) == Some(s[i]),
{
    assert forall|j: int| 0 <= j < i implies (#[trigger] s[j]).id != id by {
        assert(id_lt(s[j].id, s[i].id));
    }
    lemma_rga_find_index(s, id, i);
}

/// Overwriting the element at the position of its own identifier changes
/// only that identifier's lookup.
proof fn lemma_install_update(s: Seq<ElementSpec>, e: ElementSpec, idx: int)
    requires
        ids_sorted(s),
        0 <= idx < s.len(),
        s[idx].id == e.id,
    ensures
        ids_sorted(s.update(idx, e)),
        forall|id: ElementId| #[trigger]
            rga_find(s.update(idx, e), id) == if id == e.id {
                Some(e)
            } else {
                rga_find(s, id)
            },
{
    let t = s.update(idx, e);
    assert forall|i: int, j: int| 0 <= i < j < t.len() implies id_lt(
        #[trigger] t[i].id,
        #[trigger] t[j].id,
    ) by {
        assert(id_lt(s[i].id, s[j].id));
    }
    assert forall|id: ElementId| #[trigger]
        rga_find(t, id) == if id == e.id {
            Some(e)
        } else {
            rga_find(s, id)
        } by {
        if id == e.id {
            lemma_rga_find_unique(t, id, idx);
        } else {
            let found = exists|i: int| 0 <= i < s.len() && (#[trigger] s[i]).id == id;
            if found {
                let i = choose|i: int| 0 <= i < s.len() && (#[trigger] s[i]).id == id;
                assert(i != idx);
                assert(t[i].id == id);
                lemma_rga_find_unique(s, id, i);
                lemma_rga_find_unique(t, id, i);
            } else {
                assert forall|j: int| 0 <= j < t.len() implies (#[trigger] t[j]).id != id by {
                    assert(j != idx ==> t[j].id == s[j].id);
                }
                lemma_rga_find_none(s, id);
                lemma_rga_find_none(t, id);
            }
        }
    }
}

/// Inserting a fresh identifier at its sorted position changes only that
/// identifier's lookup.
proof fn lemma_install_insert(s: Seq<ElementSpec>, e: ElementSpec, idx: int)
    requires
        ids_sorted(s),
        0 <= idx <= s.len(),
        forall|j: int| 0 <= j < idx ==> id_lt((#[trigger] s[j]).id, e.id),
        idx == s.len() || id_lt(e.id, s[idx as int].id),
    ensures
        ids_sorted(s.insert(idx, e)),
        forall|id: ElementId| #[trigger]
            rga_find(s.insert(idx, e), id) == if id == e.id {
                Some(e)
            } else {
                rga_find(s, id)
            },
{
    let t = s.insert(idx, e);
    assert forall|i: int, j: int| 0 <= i < j < t.len() implies id_lt(
        #[trigger] t[i].id,
        #[trigger] t[j].id,
    ) by {
        if j < idx {
            assert(t[i] == s[i] && t[j] == s[j]);
        } else if i > idx {
            assert(t[i] == s[i - 1] && t[j] == s[j - 1]);
        } else if i < idx && j == idx {
            assert(t[i] == s[i]);
        } else if i == idx && j > idx {
            assert(t[j] == s[j - 1]);
        } else if i < idx && j > idx {
            assert(t[i] == s[i] && t[j] == s[j - 1]);
        }
    }
    assert forall|id: ElementId| #[trigger]
        rga_find(t, id) == if id == e.id {
            Some(e)
        } else {
            rga_find(s, id)
        } by {
        if id == e.id {
            assert(t[idx] == e);
            lemma_rga_find_unique(t, id, idx);
        } else {
            let found = exists|i: int| 0 <= i < s.len() && (#[trigger] s[i]).id == id;
            if found {
                let i = choose|i: int| 0 <= i < s.len() && (#[trigger] s[i]).id == id;
                lemma_rga_find_unique(s, id, i);
                if i < idx {
                    assert(t[i] == s[i]);
                    lemma_rga_find_unique(t, id, i);
                } else {
                    assert(t[i + 1] == s[i]);
                    lemma_rga_find_unique(t, id, i + 1);
                }
            } else {
                assert forall|j: int| 0 <= j < t.len() implies (#[trigger] t[j]).id != id by {
                    if j < idx {
                        assert(t[j] == s[j]);
                    } else if j > idx {
                        assert(t[j] == s[j - 1]);
                    }
                }
                lemma_rga_find_none(s, id);
                lemma_rga_find_none(t, id);
            }
        }
    }
}

/// The element-wise join applied by `merge` when both replicas know an
/// identifier: tombstones are sticky, and an empty value or missing anchor
/// is filled in from the other side.
pub open spec fn join_elem(a: ElementSpec, b: ElementSpec) -> ElementSpec {
    ElementSpec {
        id: a.id,
        prev: if a.prev is None {
            b.prev
        } else {
            a.prev
        },
        value: if a.value.len() == 0 {
            b.value
        } else {
            a.value
        },
        deleted: a.deleted || b.deleted,
    }
}

/// What a lookup returns after merging `b` into `a`.
pub open spec fn merge_find(
    a: Seq<ElementSpec>,
    b: Seq<ElementSpec>,
    id: ElementId,
) -> Option<ElementSpec> {
    match (rga_find(a, id), rga_find(b, id)) {
        (Some(x), Some(y)) => Some(join_elem(x, y)),
        (Some(x), None) => Some(x),
        (None, Some(y)) => Some(y),
        (None, None) => None,
    }
}

/// State-based RGA: elements stored in ascending identifier order.
#[derive(Debug)]
pub struct Rga {
    elems: Vec<Element>,
}

impl View for Rga {
    type V = Seq<ElementSpec>;

    closed spec fn view(&self) -> Seq<ElementSpec> {
        self.elems@.map_values(|e: Element| e@)
    }
}

impl Rga {
    pub open spec fn wf(&self) -> bool {
        ids_sorted(self@)
    }

    pub fn new() -> (r: Rga)
        ensures
            r.wf(),
            r@ == Seq::<ElementSpec>::empty(),
    {
        let r = Rga { elems: Vec::new() };
        proof {
            assert(r@ =~= Seq::<ElementSpec>::empty());
        }
        r
    }

    /// Number of stored elements, tombstones included.
    pub fn len(&self) -> (r: usize)
        ensures
            r == self@.len(),
    {
        self.elems.len()
    }

    /// Index of `id`, or of the first greater identifier.
    fn locate(&self, id: ElementId) -> (r: (usize, bool))
        requires
            self.wf(),
        ensures
            r.0 <= self@.len(),
            forall|j: int| 0 <= j < r.0 ==> id_lt((#[trigger] self@[j]).id, id),
            r.1 ==> r.0 < self@.len() && self@[r.0 as int].id == id,
            !r.1 ==> r.0 == self@.len() || id_lt(id, self@[r.0 as int].id),
    {
        let n = self.elems.len();
        let mut i: usize = 0;
        while i < n
            invariant
                self.wf(),
                i <= n,
                n == self@.len(),
                forall|j: int| 0 <= j < i ==> id_lt((#[trigger] self@[j]).id, id),
            decreases n - i,
        {
            let c = self.elems[i].id;
            if id_less(c, id) {
                i = i + 1;
            } else if c.actor == id.actor && c.counter == id.counter {
                return (i, true);
            } else {
                return (i, false);
            }
        }
        (n, false)
    }

    /// Installs `e` under its identifier, overwriting any stored element
    /// with the same identifier.
    fn install(&mut self, e: Element)
        requires
            old(self).wf(),
        ensures
            final(self).wf(),
            final(self)@.len() <= old(self)@.len() + 1,
            forall|id: ElementId| #[trigger]
                rga_find(final(self)@, id) == if id == e@.id {
                    Some(e@)
                } else {
                    rga_find(old(self)@, id)
                },
    {
        let ghost s0 = self@;
        let ghost ev = e@;
        let (idx, found) = self.locate(e.id);
        if found {
            proof {
                lemma_install_update(s0, ev, idx as int);
            }
            self.elems.set(idx, e);
            proof {
                assert(self@ =~= s0.update(idx as int, ev));
            }
        } else {
            proof {
                lemma_install_insert(s0, ev, idx as int);
            }
            self.elems.insert(idx, e);
            proof {
                assert(self@ =~= s0.insert(idx as int, ev));
            }
        }
    }

    /// The stored element for `id`, if any.
    pub fn find_element(&self, id: ElementId) -> (r: Option<&Element>)
        requires
            self.wf(),
        ensures
            match r {
                Some(e) => rga_find(self@, id) == Some(e@),
                None => rga_find(self@, id) is None,
            },
    {
        let (idx, found) = self.locate(id);
        if found {
            proof {
                lemma_rga_find_unique(self@, id, idx as int);
            }
            Some(&self.elems[idx])
        } else {
            proof {
                assert forall|j: int| 0 <= j < self@.len() implies (#[trigger] self@[j]).id
                    != id by {
                    if j >= idx {
                        assert(idx < self@.len() && j > idx ==> id_lt(
                            self@[idx as int].id,
                            self@[j].id,
                        ));
                    }
                }
                lemma_rga_find_none(self@, id);
            }
            None
        }
    }

    /// Adds an element under a fresh identifier; a no-op when the
    /// identifier is already present, so a duplicate delivery never
    /// overwrites the stored value.
    pub fn insert(&mut self, id: ElementId, prev: Option<ElementId>, value: Vec<u8>)
        requires
            old(self).wf(),
        ensures
            final(self).wf(),
            final(self)@.len() <= old(self)@.len() + 1,
            rga_find(old(self)@, id) is Some ==> final(self)@ == old(self)@,
            rga_find(old(self)@, id) is None ==> forall|id2: ElementId| #[trigger]
                rga_find(final(self)@, id2) == if id2 == id {
                    Some(ElementSpec { id, prev, value: value@, deleted: false })
                } else {
                    rga_find(old(self)@, id2)
                },
    {
        let (idx, found) = self.locate(id);
        if found {
            proof {
                lemma_rga_find_unique(self@, id, idx as int);
            }
            return ;
        }
        proof {
            assert forall|j: int| 0 <= j < self@.len() implies (#[trigger] self@[j]).id != id by {
                if j >= idx {
                    assert(idx < self@.len() && j > idx ==> id_lt(
                        self@[idx as int].id,
                        self@[j].id,
                    ));
                }
            }
            lemma_rga_find_none(self@, id);
        }
        self.install(Element { id, prev, value, deleted: false });
    }

    /// Tombstones `id`: marks the stored element deleted, or installs a
    /// deleted placeholder so the tombstone survives a later insert.
    pub fn delete(&mut self, id: ElementId)
        requires
            old(self).wf(),
        ensures
            final(self).wf(),
            final(self)@.len() <= old(self)@.len() + 1,
            forall|id2: ElementId| #[trigger]
                rga_find(final(self)@, id2) == if id2 == id {
                    match rga_find(old(self)@, id) {
                        Some(e) => Some(
                            ElementSpec { id: e.id, prev: e.prev, value: e.value, deleted: true },
                        ),
                        None => Some(
                            ElementSpec { id, prev: None, value: Seq::empty(), deleted: true },
                        ),
                    }
                } else {
                    rga_find(old(self)@, id2)
                },
    {
        let (idx, found) = self.locate(id);
        if found {
            proof {
                lemma_rga_find_unique(self@, id, idx as int);
            }
            let prev = self.elems[idx].prev;
            let value = copy_bytes(self.elems[idx].value.as_slice());
            self.install(Element { id, prev, value, deleted: true });
        } else {
            proof {
                assert forall|j: int| 0 <= j < self@.len() implies (#[trigger] self@[j]).id
                    != id by {
                    if j >= idx {
                        assert(idx < self@.len() && j > idx ==> id_lt(
                            self@[idx as int].id,
                            self@[j].id,
                        ));
                    }
                }
                lemma_rga_find_none(self@, id);
            }
            let value: Vec<u8> = Vec::new();
            proof {
                assert(value@ =~= Seq::<u8>::empty());
            }
            self.install(Element { id, prev: None, value, deleted: true });
        }
    }

    /// Merges another replica's state in: identifiers known to both are
    /// joined element-wise, the rest are copied over.
    pub fn merge(&mut self, other: &Rga)
        requires
            old(self).wf(),
            other.wf(),
        ensures
            final(self).wf(),
            forall|id: ElementId| #[trigger]
                rga_find(final(self)@, id) == merge_find(old(self)@, other@, id),
    {
        let ghost a = self@;
        let ghost b = other@;
        let n = other.elems.len();
        let mut k: usize = 0;
        while k < n
            invariant
                self.wf(),
                other.wf(),
                b == other@,
                n == b.len(),
                k <= n,
                forall|id: ElementId| #[trigger]
                    rga_find(self@, id) == merge_find(a, b.subrange(0, k as int), id),
            decreases n - k,
        {
            let ghost pre = self@;
            let oe = &other.elems[k];
            proof {
                lemma_rga_find_unique(b, oe@.id, k as int);
                assert forall|j: int| 0 <= j < k implies (#[trigger] b.subrange(0, k as int)[j]).id
                    != oe@.id by {
                    assert(b.subrange(0, k as int)[j] == b[j]);
                    assert(id_lt(b[j].id, b[k as int].id));
                }
                lemma_rga_find_none(b.subrange(0, k as int), oe@.id);
            }
            proof {
                lemma_rga_find_some_id(pre, oe@.id);
            }
            let merged: Element = match self.find_element(oe.id) {
                Some(local) => Element {
                    id: local.id,
                    prev: match local.prev {
                        Some(p) => Some(p),
                        None => oe.prev,
                    },
                    value: if local.value.len() == 0 {
                        copy_bytes(oe.value.as_slice())
                    } else {
                        copy_bytes(local.value.as_slice())
                    },
                    deleted: local.deleted || oe.deleted,
                },
                None => Element {
                    id: oe.id,
                    prev: oe.prev,
                    value: copy_bytes(oe.value.as_slice()),
                    deleted: oe.deleted,
                },
            };
            proof {
                assert(merged@.id == oe@.id);
            }
            self.install(merged);
            proof {
                assert forall|id: ElementId| #[trigger]
                    rga_find(self@, id) == merge_find(a, b.subrange(0, k + 1), id) by {
                    if id == oe@.id {
                        assert(b.subrange(0, k + 1)[k as int] == b[k as int]);
                        lemma_rga_find_unique(b.subrange(0, k + 1), id, k as int);
                        assert(rga_find(b.subrange(0, k + 1), id) == Some(b[k as int]));
                        assert(rga_find(self@, id) == Some(merged@));
                        assert(rga_find(pre, id) == merge_find(a, b.subrange(0, k as int), id));
                        assert(rga_find(b.subrange(0, k as int), id) is None);
                    } else {
                        assert(rga_find(self@, id) == rga_find(pre, id));
                        lemma_subrange_find_step(b, k as int, id);
                    }
                }
            }
            k = k + 1;
        }
        proof {
            assert(b.subrange(0, n as int) =~= b);
        }
    }
}

/// Extending a prefix by one element leaves every other identifier's
/// lookup unchanged.
proof fn lemma_subrange_find_step(b: Seq<ElementSpec>, k: int, id: ElementId)
    requires
        0 <= k < b.len(),
        id != b[k].id,
    ensures
        rga_find(b.subrange(0, k + 1), id) == rga_find(b.subrange(0, k), id),
{
    lemma_subrange_find_shift(b, 0, k, id);
}

/// Helper: lookup in nested subranges agrees step by step.
proof fn lemma_subrange_find_shift(b: Seq<ElementSpec>, lo: int, k: int, id: ElementId)
    requires
        0 <= lo <= k < b.len(),
        id != b[k].id,
    ensures
        rga_find(b.subrange(lo, k + 1), id) == rga_find(b.subrange(lo, k), id),
    decreases k - lo,
{
    if lo == k {
        assert(b.subrange(lo, k) =~= Seq::<ElementSpec>::empty());
        assert(b.subrange(lo, k + 1) =~= seq![b[k]]);
        assert(seq![b[k]].drop_first() =~= Seq::<ElementSpec>::empty());
        assert(rga_find(b.subrange(lo, k + 1), id) is None);
    } else {
        assert(b.subrange(lo, k + 1)[0] == b[lo]);
        assert(b.subrange(lo, k)[0] == b[lo]);
        assert(b.subrange(lo, k + 1).drop_first() =~= b.subrange(lo + 1, k + 1));
        assert(b.subrange(lo, k).drop_first() =~= b.subrange(lo + 1, k));
        lemma_subrange_find_shift(b, lo + 1, k, id);
    }
}

// ---------------------------------------------------------------------------
// The visible sequence: a deterministic depth-first traversal of the tree
// that the `prev` anchors form, children in ascending identifier order,
// tombstoned elements traversed but not emitted.
// ---------------------------------------------------------------------------

/// Identifiers of the elements anchored to `anchor`, in ascending
/// identifier order (the storage order).
pub open spec fn children_ids(s: Seq<ElementSpec>, anchor: Option<ElementId>) -> Seq<ElementId>
    decreases s.len(),
{
    if s.len() == 0 {
        Seq::empty()
    } else if s[0].prev == anchor {
        seq![s[0].id] + children_ids(s.drop_first(), anchor)
    } else {
        children_ids(s.drop_first(), anchor)
    }
}

proof fn lemma_children_ids_push(s: Seq<ElementSpec>, x: ElementSpec, anchor: Option<ElementId>)
    ensures
        children_ids(s.push(x), anchor) == children_ids(s, anchor) + if x.prev == anchor {
            seq![x.id]
        } else {
            Seq::empty()
        },
    decreases s.len(),
{
    if s.len() == 0 {
        assert(s.push(x)[0] == x);
        assert(s.push(x).drop_first() =~= Seq::<ElementSpec>::empty());
        assert(children_ids(s.push(x).drop_first(), anchor) =~= Seq::<ElementId>::empty());
        if x.prev == anchor {
            assert(children_ids(s.push(x), anchor) =~= children_ids(s, anchor) + seq![x.id]);
        } else {
            assert(children_ids(s.push(x), anchor) =~= children_ids(s, anchor) + Seq::empty());
        }
    } else {
        assert(s.push(x)[0] == s[0]);
        assert(s.push(x).drop_first() =~= s.drop_first().push(x));
        lemma_children_ids_push(s.drop_first(), x, anchor);
        if x.prev == anchor {
            assert(children_ids(s.push(x), anchor) =~= children_ids(s, anchor) + seq![x.id]);
        } else {
            assert(children_ids(s.push(x), anchor) =~= children_ids(s, anchor) + Seq::empty());
        }
    }
}

/// Every listed child identifier belongs to a stored element.
proof fn lemma_children_ids_member(s: Seq<ElementSpec>, anchor: Option<ElementId>, j: int)
    requires
        0 <= j < children_ids(s, anchor).len(),
    ensures
        exists|i: int| 0 <= i < s.len() && (#[trigger] s[i]).id == children_ids(s, anchor)[j],
    decreases s.len(),
{
    if s.len() > 0 {
        if s[0].prev == anchor {
            if j == 0 {
                assert(s[0].id == children_ids(s, anchor)[0]);
            } else {
                lemma_children_ids_member(s.drop_first(), anchor, j - 1);
                let i = choose|i: int|
                    0 <= i < s.drop_first().len() && (#[trigger] s.drop_first()[i]).id
                        == children_ids(s.drop_first(), anchor)[j - 1];
                assert(s[i + 1].id == children_ids(s, anchor)[j]);
            }
        } else {
            lemma_children_ids_member(s.drop_first(), anchor, j);
            let i = choose|i: int|
                0 <= i < s.drop_first().len() && (#[trigger] s.drop_first()[i]).id == children_ids(
                    s.drop_first(),
                    anchor,
                )[j];
            assert(s[i + 1].id == children_ids(s, anchor)[j]);
        }
    }
}

/// The identifiers of all stored elements.
pub open spec fn ids_of(s: Seq<ElementSpec>) -> Set<ElementId> {
    s.map_values(|e: ElementSpec| e.id).to_set()
}

/// Some stored element carries this identifier.
pub open spec fn has_id(s: Seq<ElementSpec>, id: ElementId) -> bool {
    exists|i: int| 0 <= i < s.len() && (#[trigger] s[i]).id == id
}

/// The traversal order, driven by an explicit work stack whose top is the
/// last entry: pop an identifier; if it has not been visited yet, emit it
/// and push its children so that the smallest identifier is popped next.
/// `remaining` holds the identifiers not yet visited.
pub open spec fn dfs_ids(
    s: Seq<ElementSpec>,
    stack: Seq<ElementId>,
    remaining: Set<ElementId>,
) -> Seq<ElementId>
    decreases remaining.len(), stack.len(),
{
    if stack.len() == 0 {
        Seq::empty()
    } else {
        let c = stack.last();
        let rest = stack.drop_last();
        if remaining.finite() && remaining.contains(c) {
            seq![c] + dfs_ids(s, rest + children_ids(s, Some(c)).reverse(), remaining.remove(c))
        } else {
            dfs_ids(s, rest, remaining)
        }
    }
}

/// The depth-first traversal of the whole structure, rooted at the
/// sentinel head.
pub open spec fn rga_traversal(s: Seq<ElementSpec>) -> Seq<ElementId> {
    dfs_ids(s, children_ids(s, None).reverse(), ids_of(s))
}

/// The values of the non-tombstoned elements among `ids`, in order:
/// tombstoned elements are never emitted.
pub open spec fn visible_values(s: Seq<ElementSpec>, ids: Seq<ElementId>) -> Seq<Seq<u8>>
    decreases ids.len(),
{
    if ids.len() == 0 {
        Seq::empty()
    } else {
        let head = match rga_find(s, ids[0]) {
            Some(e) => if e.deleted {
                Seq::<Seq<u8>>::empty()
            } else {
                seq![e.value]
            },
            None => Seq::<Seq<u8>>::empty(),
        };
        head + visible_values(s, ids.drop_first())
    }
}

/// What `visible_sequence` returns: a function of the stored elements
/// alone.
pub open spec fn rga_visible(s: Seq<ElementSpec>) -> Seq<Seq<u8>> {
    visible_values(s, rga_traversal(s))
}

proof fn lemma_visible_values_step(s: Seq<ElementSpec>, c: ElementId, rest: Seq<ElementId>)
    ensures
        visible_values(s, seq![c] + rest) == (match rga_find(s, c) {
            Some(e) => if e.deleted {
                Seq::<Seq<u8>>::empty()
            } else {
                seq![e.value]
            },
            None => Seq::<Seq<u8>>::empty(),
        }) + visible_values(s, rest),
{
    let ids = seq![c] + rest;
    assert(ids[0] == c);
    assert(ids.drop_first() =~= rest);
}

impl Rga {
    /// The elements anchored to `anchor`, as identifiers in ascending
    /// order.
    fn collect_children(&self, anchor: ElementId) -> (r: Vec<ElementId>)
        requires
            self.wf(),
        ensures
            r@ == children_ids(self@, Some(anchor)),
    {
        let n = self.elems.len();
        let mut out: Vec<ElementId> = Vec::new();
        let mut i: usize = 0;
        while i < n
            invariant
                self.wf(),
                i <= n,
                n == self@.len(),
                out@ == children_ids(self@.subrange(0, i as int), Some(anchor)),
            decreases n - i,
        {
            let is_child: bool = match &self.elems[i].prev {
                Some(p) => p.actor == anchor.actor && p.counter == anchor.counter,
                None => false,
            };
            proof {
                assert(is_child == (self@[i as int].prev == Some(anchor)));
                lemma_children_ids_push(
                    self@.subrange(0, i as int),
                    self@[i as int],
                    Some(anchor),
                );
                assert(self@.subrange(0, i + 1) =~= self@.subrange(0, i as int).push(
                    self@[i as int],
                ));
            }
            if is_child {
                out.push(self.elems[i].id);
                proof {
                    assert(out@ =~= children_ids(self@.subrange(0, i + 1), Some(anchor)));
                }
            } else {
                proof {
                    assert(out@ =~= children_ids(self@.subrange(0, i + 1), Some(anchor)));
                }
            }
            i = i + 1;
        }
        proof {
            assert(self@.subrange(0, n as int) =~= self@);
        }
        out
    }

    /// Emits the values of the non-tombstoned elements in depth-first
    /// traversal order: children sorted by identifier, tombstoned elements
    /// skipped for emission but still traversed, so their surviving
    /// children keep their position.
    pub fn visible_sequence(&self) -> (r: Vec<Vec<u8>>)
        requires
            self.wf(),
        ensures
            r@.map_values(|v: Vec<u8>| v@) == rga_visible(self@),
    {
        let n = self.elems.len();
        let mut visited: Vec<bool> = Vec::new();
        let mut i: usize = 0;
        while i < n
            invariant
                i <= n,
                visited@.len() == i,
                forall|j: int| 0 <= j < i ==> !(#[trigger] visited@[j]),
            decreases n - i,
        {
            visited.push(false);
            i = i + 1;
        }
        let root_kids = self.collect_children_root();
        let mut stack: Vec<ElementId> = Vec::new();
        let mut m: usize = root_kids.len();
        while m > 0
            invariant
                m <= root_kids@.len(),
                stack@ == root_kids@.subrange(m as int, root_kids@.len() as int).reverse(),
            decreases m,
        {
            m = m - 1;
            stack.push(root_kids[m]);
            proof {
                assert(stack@ =~= root_kids@.subrange(m as int, root_kids@.len() as int).reverse());
            }
        }
        proof {
            assert(root_kids@.subrange(0, root_kids@.len() as int) =~= root_kids@);
        }
        let ghost remaining0: Set<ElementId> = ids_of(self@);
        proof {
            assert(remaining0.finite()) by {
                broadcast use vstd::seq_lib::seq_to_set_is_finite;

            }
            assert forall|j: int| 0 <= j < n implies remaining0.contains(
                (#[trigger] self@[j]).id,
            ) by {
                assert(self@.map_values(|e: ElementSpec| e.id)[j] == self@[j].id);
                assert(self@.map_values(|e: ElementSpec| e.id).contains(self@[j].id));
            }
            assert forall|j: int| 0 <= j < stack@.len() implies has_id(
                self@,
                #[trigger] stack@[j],
            ) by {
                let rev = children_ids(self@, None).reverse();
                let jj = children_ids(self@, None).len() - 1 - j;
                assert(stack@[j] == children_ids(self@, None)[jj]);
                lemma_children_ids_member(self@, None, jj);
            }
        }
        let mut out: Vec<Vec<u8>> = Vec::new();
        let ghost mut remaining = remaining0;
        while stack.len() > 0
            invariant
                self.wf(),
                n == self@.len(),
                visited@.len() == n,
                remaining.finite(),
                forall|j: int|
                    0 <= j < n ==> ((#[trigger] visited@[j]) <==> !remaining.contains(
                        self@[j].id,
                    )),
                forall|j: int| 0 <= j < stack@.len() ==> has_id(self@, #[trigger] stack@[j]),
                out@.map_values(|v: Vec<u8>| v@) + visible_values(
                    self@,
                    dfs_ids(self@, stack@, remaining),
                ) == rga_visible(self@),
            decreases remaining.len(), stack@.len(),
        {
            let ghost stack0 = stack@;
            let ghost rem0 = remaining;
            let c = match stack.pop() {
                Some(c) => c,
                None => {
                    proof {
                        assert(false);
                    }
                    ElementId { actor: 0, counter: 0 }
                },
            };
            proof {
                assert(stack0.last() == c);
                assert(stack@ =~= stack0.drop_last());
            }
            let (idx, found) = self.locate(c);
            proof {
                if !found {
                    assert(has_id(self@, c));
                    let w = choose|w: int| 0 <= w < self@.len() && (#[trigger] self@[w]).id == c;
                    if w >= idx {
                        assert(idx < self@.len() && w > idx ==> id_lt(
                            self@[idx as int].id,
                            self@[w].id,
                        ));
                    }
                    assert(false);
                }
            }
            if visited[idx] {
                proof {
                    assert(!remaining.contains(c));
                    assert(dfs_ids(self@, stack0, rem0) == dfs_ids(self@, stack@, remaining));
                }
            } else {
                visited.set(idx, true);
                proof {
                    assert(remaining.contains(self@[idx as int].id));
                    remaining = remaining.remove(c);
                    assert forall|j: int| 0 <= j < n implies ((#[trigger] visited@[j])
                        <==> !remaining.contains(self@[j].id)) by {
                        if j != idx {
                            if self@[j].id == c {
                                assert(id_lt(self@[if j < idx {
                                    j
                                } else {
                                    idx as int
                                }].id, self@[if j < idx {
                                    idx as int
                                } else {
                                    j
                                }].id));
                            }
                        }
                    }
                }
                let kids = self.collect_children(c);
                let mut m2: usize = kids.len();
                let ghost base = stack@;
                while m2 > 0
                    invariant
                        m2 <= kids@.len(),
                        stack@ == base + kids@.subrange(m2 as int, kids@.len() as int).reverse(),
                    decreases m2,
                {
                    m2 = m2 - 1;
                    stack.push(kids[m2]);
                    proof {
                        assert(stack@ =~= base + kids@.subrange(
                            m2 as int,
                            kids@.len() as int,
                        ).reverse());
                    }
                }
                proof {
                    assert(kids@.subrange(0, kids@.len() as int) =~= kids@);
                    assert(stack@ == base + children_ids(self@, Some(c)).reverse());
                }
                let e = &self.elems[idx];
                proof {
                    lemma_rga_find_unique(self@, c, idx as int);
                }
                let ghost before_vals = out@.map_values(|v: Vec<u8>| v@);
                if !e.deleted {
                    out.push(copy_bytes(e.value.as_slice()));
                }
                proof {
                    let now_vals = out@.map_values(|v: Vec<u8>| v@);
                    if !self@[idx as int].deleted {
                        assert(now_vals =~= before_vals.push(self@[idx as int].value));
                        assert(now_vals =~= before_vals + seq![self@[idx as int].value]);
                    } else {
                        assert(now_vals =~= before_vals + Seq::<Seq<u8>>::empty());
                    }
                    assert(dfs_ids(self@, stack0, rem0) == seq![c] + dfs_ids(
                        self@,
                        stack@,
                        remaining,
                    ));
                    lemma_visible_values_step(self@, c, dfs_ids(self@, stack@, remaining));
                    // Each child identifier on the stack names a stored element.
                    assert forall|j: int| 0 <= j < stack@.len() implies has_id(
                        self@,
                        #[trigger] stack@[j],
                    ) by {
                        if j < base.len() {
                            assert(stack@[j] == base[j]);
                        } else {
                            let rev = children_ids(self@, Some(c)).reverse();
                            assert(stack@[j] == rev[j - base.len()]);
                            let jj = children_ids(self@, Some(c)).len() - 1 - (j - base.len());
                            assert(rev[j - base.len()] == children_ids(self@, Some(c))[jj]);
                            lemma_children_ids_member(self@, Some(c), jj);
                        }
                    }
                }
            }
        }
        proof {
            assert(dfs_ids(self@, stack@, remaining) =~= Seq::<ElementId>::empty());
            assert(visible_values(self@, Seq::<ElementId>::empty()) =~= Seq::<Seq<u8>>::empty());
            assert(out@.map_values(|v: Vec<u8>| v@) =~= rga_visible(self@));
        }
        out
    }

    /// The elements anchored to the sentinel head, as identifiers in
    /// ascending order.
    fn collect_children_root(&self) -> (r: Vec<ElementId>)
        requires
            self.wf(),
        ensures
            r@ == children_ids(self@, None),
    {
        let n = self.elems.len();
        let mut out: Vec<ElementId> = Vec::new();
        let mut i: usize = 0;
        while i < n
            invariant
                self.wf(),
                i <= n,
                n == self@.len(),
                out@ == children_ids(self@.subrange(0, i as int), None),
            decreases n - i,
        {
            let is_child: bool = match &self.elems[i].prev {
                Some(_) => false,
                None => true,
            };
            proof {
                assert(is_child == (self@[i as int].prev == Option::<ElementId>::None));
                lemma_children_ids_push(self@.subrange(0, i as int), self@[i as int], None);
                assert(self@.subrange(0, i + 1) =~= self@.subrange(0, i as int).push(
                    self@[i as int],
                ));
            }
            if is_child {
                out.push(self.elems[i].id);
                proof {
                    assert(out@ =~= children_ids(self@.subrange(0, i + 1), None));
                }
            } else {
                proof {
                    assert(out@ =~= children_ids(self@.subrange(0, i + 1), None));
                }
            }
            i = i + 1;
        }
        proof {
            assert(self@.subrange(0, n as int) =~= self@);
        }
        out
    }
}

// ---------------------------------------------------------------------------
// Binary codec: count (4 BE), then per element actor and counter (8 BE
// each), an anchor flag with an optional anchor identifier, the
// length-prefixed value (4 BE), and the tombstone flag.
// ---------------------------------------------------------------------------

/// The 16-byte encoding of an identifier.
pub open spec fn id_encode(id: ElementId) -> Seq<u8> {
    be64_bytes(id.actor) + be64_bytes(id.counter)
}

/// One element's wire record.
pub open spec fn elem_encode(e: ElementSpec) -> Seq<u8> {
    id_encode(e.id) + (match e.prev {
        Some(p) => seq![1u8] + id_encode(p),
        None => seq![0u8],
    }) + be32_bytes(e.value.len() as u32) + e.value + seq![
        if e.deleted {
            1u8
        } else {
            0u8
        },
    ]
}

/// The identifier read from the front of `b`, with the bytes consumed.
pub open spec fn id_parse(b: Seq<u8>) -> Option<(ElementId, int)> {
    if b.len() < 16 {
        None
    } else {
        Some(
            (
                ElementId {
                    actor: be64_val(b.subrange(0, 8)) as u64,
                    counter: be64_val(b.subrange(8, 16)) as u64,
                },
                16,
            ),
        )
    }
}

/// The tail of an element record, from the value-length field on.
pub open spec fn elem_parse_tail(b: Seq<u8>, id: ElementId, prev: Option<ElementId>, i: int) -> Option<
    (ElementSpec, int),
> {
    if i + 4 > b.len() {
        None
    } else {
        let vlen = be32_val(b.subrange(i, i + 4));
        if i + 4 + vlen > b.len() {
            None
        } else {
            let value = b.subrange(i + 4, i + 4 + vlen);
            if i + 4 + vlen >= b.len() {
                None
            } else {
                let deleted = b[i + 4 + vlen] != 0;
                Some((ElementSpec { id, prev, value, deleted }, i + 4 + vlen + 1))
            }
        }
    }
}

/// The element read from the front of `b`, with the bytes consumed; `None`
/// on a short read.
pub open spec fn elem_parse(b: Seq<u8>) -> Option<(ElementSpec, int)> {
    match id_parse(b) {
        None => None,
        Some((id, n0)) => {
            if n0 >= b.len() {
                None
            } else {
                let has_prev = b[n0] == 1;
                if has_prev {
                    match id_parse(b.subrange(n0 + 1, b.len() as int)) {
                        None => None,
                        Some((p, n1)) => elem_parse_tail(b, id, Some(p), n0 + 1 + n1),
                    }
                } else {
                    elem_parse_tail(b, id, None, n0 + 1)
                }
            }
        },
    }
}

/// Encoding of the elements alone, in storage order.
pub open spec fn rga_encode_elems(s: Seq<ElementSpec>) -> Seq<u8>
    decreases s.len(),
{
    if s.len() == 0 {
        Seq::empty()
    } else {
        elem_encode(s[0]) + rga_encode_elems(s.drop_first())
    }
}

/// The wire format: a 4-byte big-endian count, then the element records.
pub open spec fn rga_encode(s: Seq<ElementSpec>) -> Seq<u8> {
    be32_bytes(s.len() as u32) + rga_encode_elems(s)
}

/// The raw element list a decoder reads: stops at the first short read.
pub open spec fn rga_parse_items(b: Seq<u8>, i: int, cnt: int) -> Seq<ElementSpec>
    decreases cnt,
{
    if cnt <= 0 {
        Seq::empty()
    } else if i >= b.len() {
        Seq::empty()
    } else {
        match elem_parse(b.subrange(i, b.len() as int)) {
            Some((e, n)) => seq![e] + rga_parse_items(b, i + n, cnt - 1),
            None => Seq::empty(),
        }
    }
}

/// What any byte sequence decodes to, in reading order.
pub open spec fn rga_parse(b: Seq<u8>) -> Seq<ElementSpec> {
    if b.len() < 4 {
        Seq::empty()
    } else {
        rga_parse_items(b, 4, be32_val(b.subrange(0, 4)))
    }
}

/// Lookup by identifier, last occurrence: what installing a parsed list
/// in order leaves behind for each identifier.
pub open spec fn last_find(s: Seq<ElementSpec>, id: ElementId) -> Option<ElementSpec>
    decreases s.len(),
{
    if s.len() == 0 {
        None
    } else if s.last().id == id {
        Some(s.last())
    } else {
        last_find(s.drop_last(), id)
    }
}

impl ElementId {
    /// Appends the 16-byte encoding of this identifier.
    pub fn to_bytes(&self, out: &mut Vec<u8>)
        ensures
            final(out)@ == old(out)@ + id_encode(*self),
    {
        push_be64(out, self.actor);
        push_be64(out, self.counter);
        proof {
            assert(out@ =~= old(out)@ + id_encode(*self));
        }
    }

    /// Reads an identifier from the front of `bs`.
    pub fn from_bytes(bs: &[u8]) -> (r: Option<(ElementId, usize)>)
        ensures
            match r {
                Some((id, n)) => id_parse(bs@) == Some((id, n as int)) && n == 16,
                None => id_parse(bs@) is None,
            },
    {
        let blen = bs.len();
        if blen < 16 {
            return None;
        }
        let actor = read_be64(bs, 0);
        let counter = read_be64(bs, 8);
        proof {
            lemma_be64_roundtrip(actor);
            lemma_be64_roundtrip(counter);
        }
        Some((ElementId { actor, counter }, 16))
    }
}

impl Element {
    /// Appends this element's wire record.
    pub fn to_bytes(&self, out: &mut Vec<u8>)
        requires
            self.value@.len() < 0x100000000,
        ensures
            final(out)@ == old(out)@ + elem_encode(self@),
    {
        self.id.to_bytes(out);
        match &self.prev {
            Some(p) => {
                out.push(1);
                p.to_bytes(out);
            },
            None => {
                out.push(0);
            },
        }
        push_be32(out, self.value.len() as u32);
        push_bytes(out, self.value.as_slice());
        out.push(if self.deleted {
            1
        } else {
            0
        });
        proof {
            assert(out@ =~= old(out)@ + elem_encode(self@));
        }
    }

    /// Reads an element record from the front of `bs`.
    pub fn from_bytes(bs: &[u8]) -> (r: Option<(Element, usize)>)
        ensures
            match r {
                Some((e, n)) => elem_parse(bs@) == Some((e@, n as int)) && n <= bs@.len(),
                None => elem_parse(bs@) is None,
            },
    {
        let blen = bs.len();
        let (id, n0) = match ElementId::from_bytes(bs) {
            Some(p) => p,
            None => {
                return None;
            },
        };
        if n0 >= blen {
            return None;
        }
        let has_prev = bs[n0] == 1;
        let mut i: usize = n0 + 1;
        let prev: Option<ElementId> = if has_prev {
            match ElementId::from_bytes(&bs[i..blen]) {
                Some((p, n1)) => {
                    i = i + n1;
                    Some(p)
                },
                None => {
                    return None;
                },
            }
        } else {
            None
        };
        if blen - i < 4 {
            return None;
        }
        let vlen = read_be32(bs, i) as usize;
        if blen - (i + 4) < vlen {
            return None;
        }
        let value = copy_bytes(&bs[i + 4..i + 4 + vlen]);
        let after = i + 4 + vlen;
        if after >= blen {
            return None;
        }
        let deleted = bs[after] != 0;
        let e = Element { id, prev, value, deleted };
        proof {
            assert(elem_parse_tail(bs@, id, prev, i as int) == Some((e@, after + 1)));
        }
        Some((e, after + 1))
    }
}

impl Rga {
    /// Encodes the structure: count, then each element's record, in
    /// ascending identifier order.
    pub fn to_bytes(&self) -> (r: Vec<u8>)
        requires
            self@.len() < 0x100000000,
            forall|m: int| 0 <= m < self@.len() ==> (#[trigger] self@[m]).value.len() < 0x100000000,
        ensures
            r@ == rga_encode(self@),
    {
        let n = self.elems.len();
        let mut out: Vec<u8> = Vec::new();
        push_be32(&mut out, n as u32);
        let mut i: usize = 0;
        while i < n
            invariant
                i <= n,
                n == self@.len(),
                n < 0x100000000,
                forall|m: int|
                    0 <= m < self@.len() ==> (#[trigger] self@[m]).value.len() < 0x100000000,
                out@ == be32_bytes(n as u32) + rga_encode_elems(self@.subrange(0, i as int)),
            decreases n - i,
        {
            self.elems[i].to_bytes(&mut out);
            proof {
                lemma_rga_encode_elems_push(self@.subrange(0, i as int), self@[i as int]);
                assert(self@.subrange(0, i + 1) =~= self@.subrange(0, i as int).push(
                    self@[i as int],
                ));
                assert(out@ =~= be32_bytes(n as u32) + rga_encode_elems(self@.subrange(0, i + 1)));
            }
            i = i + 1;
        }
        proof {
            assert(self@.subrange(0, n as int) =~= self@);
        }
        out
    }

    /// Decodes a byte string leniently: reads whole records until the
    /// first short read, later duplicates of an identifier overwriting
    /// earlier ones, as an ordered-map insert would.
    pub fn from_bytes(bytes: &[u8]) -> (r: Rga)
        ensures
            r.wf(),
            r@.len() < 0x100000000,
            forall|id: ElementId| #[trigger]
                rga_find(r@, id) == last_find(rga_parse(bytes@), id),
    {
        let blen = bytes.len();
        let mut r = Rga::new();
        if blen < 4 {
            return r;
        }
        let cnt = read_be32(bytes, 0);
        let ghost total = rga_parse_items(bytes@, 4, cnt as int);
        let ghost mut parsed = Seq::<ElementSpec>::empty();
        let mut i: usize = 4;
        let mut j: u32 = 0;
        while j < cnt
            invariant
                4 <= i <= blen,
                blen == bytes@.len(),
                j <= cnt,
                r.wf(),
                r@.len() <= j,
                forall|id: ElementId| #[trigger] rga_find(r@, id) == last_find(parsed, id),
                total == parsed + rga_parse_items(bytes@, i as int, cnt - j),
                total == rga_parse_items(bytes@, 4, cnt as int),
            decreases cnt - j,
        {
            if i >= blen {
                proof {
                    assert(rga_parse_items(bytes@, i as int, cnt - j) =~= Seq::<
                        ElementSpec,
                    >::empty());
                    assert(total =~= parsed);
                }
                j = cnt;
                continue ;
            }
            let (e, n) = match Element::from_bytes(&bytes[i..blen]) {
                Some(p) => p,
                None => {
                    proof {
                        assert(rga_parse_items(bytes@, i as int, cnt - j) =~= Seq::<
                            ElementSpec,
                        >::empty());
                        assert(total =~= parsed);
                    }
                    j = cnt;
                    continue ;
                },
            };
            let ghost ev = e@;
            proof {
                assert(rga_parse_items(bytes@, i as int, cnt - j) == seq![ev] + rga_parse_items(
                    bytes@,
                    i + n,
                    cnt - j - 1,
                ));
                assert((parsed + rga_parse_items(bytes@, i as int, cnt - j)) =~= (parsed.push(ev)
                    + rga_parse_items(bytes@, i + n, cnt - j - 1)));
                lemma_last_find_push(parsed, ev);
            }
            r.install(e);
            proof {
                parsed = parsed.push(ev);
            }
            i = i + n;
            j = j + 1;
        }
        proof {
            assert(rga_parse_items(bytes@, i as int, 0) =~= Seq::<ElementSpec>::empty());
            assert(total =~= parsed);
        }
        r
    }
}

/// Appending one record extends the encoding by it.
proof fn lemma_rga_encode_elems_push(s: Seq<ElementSpec>, x: ElementSpec)
    ensures
        rga_encode_elems(s.push(x)) == rga_encode_elems(s) + elem_encode(x),
    decreases s.len(),
{
    if s.len() == 0 {
        assert(s.push(x)[0] == x);
        assert(s.push(x).drop_first() =~= Seq::<ElementSpec>::empty());
        assert(rga_encode_elems(s.push(x).drop_first()) =~= Seq::<u8>::empty());
        assert(rga_encode_elems(s.push(x)) =~= rga_encode_elems(s) + elem_encode(x));
    } else {
        assert(s.push(x)[0] == s[0]);
        assert(s.push(x).drop_first() =~= s.drop_first().push(x));
        lemma_rga_encode_elems_push(s.drop_first(), x);
        assert(rga_encode_elems(s.push(x)) =~= rga_encode_elems(s) + elem_encode(x));
    }
}

/// Any element a byte string parses to has a value fitting its field.
pub proof fn lemma_rga_parse_items_lens(b: Seq<u8>, i: int, cnt: int)
    requires
        0 <= i,
    ensures
        forall|m: int|
            0 <= m < rga_parse_items(b, i, cnt).len() ==> (#[trigger] rga_parse_items(
                b,
                i,
                cnt,
            )[m]).value.len() < 0x100000000,
    decreases cnt,
{
    if cnt > 0 && i < b.len() {
        match elem_parse(b.subrange(i, b.len() as int)) {
            Some((e, n)) => {
                lemma_elem_parse_value_len(b.subrange(i, b.len() as int));
                assert(n >= 1) by {
                    lemma_elem_parse_consumes(b.subrange(i, b.len() as int));
                }
                lemma_rga_parse_items_lens(b, i + n, cnt - 1);
                assert forall|m: int| 0 <= m < rga_parse_items(b, i, cnt).len() implies (
                #[trigger] rga_parse_items(b, i, cnt)[m]).value.len() < 0x100000000 by {
                    if m > 0 {
                        assert(rga_parse_items(b, i, cnt)[m] == rga_parse_items(
                            b,
                            i + n,
                            cnt - 1,
                        )[m - 1]);
                    }
                }
            },
            None => {},
        }
    }
}

/// A parsed element's value fits its 4-byte length field.
proof fn lemma_elem_parse_value_len(b: Seq<u8>)
    ensures
        match elem_parse(b) {
            Some((e, n)) => e.value.len() < 0x100000000,
            None => true,
        },
{
    crate::wire::lemma_be32_bytes_bound_any(b);
}

/// A successful element parse consumes at least one byte.
proof fn lemma_elem_parse_consumes(b: Seq<u8>)
    ensures
        match elem_parse(b) {
            Some((e, n)) => 1 <= n <= b.len(),
            None => true,
        },
{
}

/// A last-match hit names one of the listed elements.
pub proof fn lemma_last_find_witness(s: Seq<ElementSpec>, id: ElementId)
    requires
        last_find(s, id) is Some,
    ensures
        exists|w: int| 0 <= w < s.len() && #[trigger] s[w] == last_find(s, id).unwrap(),
    decreases s.len(),
{
    if s.len() > 0 && s.last().id != id {
        lemma_last_find_witness(s.drop_last(), id);
        let w = choose|w: int|
            0 <= w < s.drop_last().len() && #[trigger] s.drop_last()[w] == last_find(
                s.drop_last(),
                id,
            ).unwrap();
        assert(s[w] == last_find(s, id).unwrap());
    }
}

/// When every lookup answer has a bounded value, every stored element
/// does.
pub proof fn lemma_rga_values_from_find(g: Seq<ElementSpec>)
    requires
        ids_sorted(g),
        forall|id: ElementId|
            match #[trigger] rga_find(g, id) {
                Some(e) => e.value.len() < 0x100000000,
                None => true,
            },
    ensures
        forall|m: int| 0 <= m < g.len() ==> (#[trigger] g[m]).value.len() < 0x100000000,
{
    assert forall|m: int| 0 <= m < g.len() implies (#[trigger] g[m]).value.len()
        < 0x100000000 by {
        lemma_rga_find_unique(g, g[m].id, m);
    }
}

/// Appending a record changes only its own identifier's last-match lookup.
proof fn lemma_last_find_push(s: Seq<ElementSpec>, x: ElementSpec)
    ensures
        forall|id: ElementId| #[trigger]
            last_find(s.push(x), id) == if id == x.id {
                Some(x)
            } else {
                last_find(s, id)
            },
{
    assert forall|id: ElementId| #[trigger]
        last_find(s.push(x), id) == if id == x.id {
            Some(x)
        } else {
            last_find(s, id)
        } by {
        assert(s.push(x).last() == x);
        assert(s.push(x).drop_last() =~= s);
    }
}

// ---------------------------------------------------------------------------
// The merge laws: merging is idempotent and associative, commutative when
// the replicas do not disagree on a stored value or anchor, and the sorted
// storage makes the representation canonical.
// ---------------------------------------------------------------------------

/// A hit names one of the stored elements.
pub proof fn lemma_rga_find_witness(s: Seq<ElementSpec>, id: ElementId)
    requires
        rga_find(s, id) is Some,
    ensures
        exists|i: int| 0 <= i < s.len() && #[trigger] s[i] == rga_find(s, id).unwrap(),
    decreases s.len(),
{
    if s.len() > 0 && s[0].id != id {
        lemma_rga_find_witness(s.drop_first(), id);
        let i = choose|i: int|
            0 <= i < s.drop_first().len() && #[trigger] s.drop_first()[i] == rga_find(
                s.drop_first(),
                id,
            ).unwrap();
        assert(s[i + 1] == rga_find(s, id).unwrap());
    }
}

/// A sorted structure is determined by its lookup function: the
/// representation is canonical.
pub proof fn lemma_rga_canonical(a: Seq<ElementSpec>, b: Seq<ElementSpec>)
    requires
        ids_sorted(a),
        ids_sorted(b),
        forall|id: ElementId| #[trigger] rga_find(a, id) == rga_find(b, id),
    ensures
        a == b,
    decreases a.len(),
{
    if a.len() == 0 {
        if b.len() > 0 {
            lemma_rga_find_unique(b, b[0].id, 0);
            lemma_rga_find_none(a, b[0].id);
        }
        assert(a =~= b);
    } else if b.len() == 0 {
        lemma_rga_find_unique(a, a[0].id, 0);
        lemma_rga_find_none(b, a[0].id);
    } else {
        // Heads carry the minimal identifiers of equal lookup functions,
        // so they are equal.
        lemma_rga_find_unique(a, a[0].id, 0);
        lemma_rga_find_unique(b, b[0].id, 0);
        lemma_rga_find_witness(b, a[0].id);
        let jb = choose|j: int| 0 <= j < b.len() && #[trigger] b[j] == rga_find(b, a[0].id).unwrap();
        lemma_rga_find_some_id(b, a[0].id);
        lemma_rga_find_witness(a, b[0].id);
        let ja = choose|j: int| 0 <= j < a.len() && #[trigger] a[j] == rga_find(a, b[0].id).unwrap();
        lemma_rga_find_some_id(a, b[0].id);
        if a[0].id != b[0].id {
            assert(jb > 0 ==> id_lt(b[0].id, b[jb].id));
            assert(ja > 0 ==> id_lt(a[0].id, a[ja].id));
            assert(false);
        }
        assert(a[0] == b[0]);
        let at = a.drop_first();
        let bt = b.drop_first();
        assert forall|i: int, j: int| 0 <= i < j < at.len() implies id_lt(
            (#[trigger] at[i]).id,
            (#[trigger] at[j]).id,
        ) by {
            assert(at[i] == a[i + 1] && at[j] == a[j + 1]);
        }
        assert forall|i: int, j: int| 0 <= i < j < bt.len() implies id_lt(
            (#[trigger] bt[i]).id,
            (#[trigger] bt[j]).id,
        ) by {
            assert(bt[i] == b[i + 1] && bt[j] == b[j + 1]);
        }
        assert forall|id: ElementId| #[trigger] rga_find(at, id) == rga_find(bt, id) by {
            if id == a[0].id {
                assert forall|j: int| 0 <= j < at.len() implies (#[trigger] at[j]).id != id by {
                    assert(at[j] == a[j + 1]);
                    assert(id_lt(a[0].id, a[j + 1].id));
                }
                lemma_rga_find_none(at, id);
                assert forall|j: int| 0 <= j < bt.len() implies (#[trigger] bt[j]).id != id by {
                    assert(bt[j] == b[j + 1]);
                    assert(id_lt(b[0].id, b[j + 1].id));
                }
                lemma_rga_find_none(bt, id);
            } else {
                assert(rga_find(a, id) == rga_find(at, id));
                assert(rga_find(b, id) == rga_find(bt, id));
            }
        }
        lemma_rga_canonical(at, bt);
        assert(a.len() == b.len());
        assert forall|i: int| 0 <= i < a.len() implies a[i] == b[i] by {
            if i > 0 {
                assert(at[i - 1] == a[i]);
                assert(bt[i - 1] == b[i]);
            }
        }
        assert(a =~= b);
    }
}

/// Merging a structure with itself leaves it unchanged: any well-formed
/// result of `merge(g, g)` equals `g`.
pub proof fn lemma_rga_merge_idempotent(g: Seq<ElementSpec>, m: Seq<ElementSpec>)
    requires
        ids_sorted(g),
        ids_sorted(m),
        forall|id: ElementId| #[trigger] rga_find(m, id) == merge_find(g, g, id),
    ensures
        m == g,
{
    assert forall|id: ElementId| #[trigger] rga_find(m, id) == rga_find(g, id) by {
        match rga_find(g, id) {
            Some(x) => {
                assert(join_elem(x, x) == x);
            },
            None => {},
        }
    }
    lemma_rga_canonical(m, g);
}

/// Two replicas do not contradict one another: where both store an
/// identifier, the values agree or one is empty, and the anchors agree or
/// one is missing. Concurrent histories of the same insertions satisfy
/// this; it is what the element-wise join can reconcile.
pub open spec fn rga_compatible(a: Seq<ElementSpec>, b: Seq<ElementSpec>) -> bool {
    forall|id: ElementId| compatible_at(a, b, id)
}

/// The two replicas do not contradict one another on `id`.
pub open spec fn compatible_at(a: Seq<ElementSpec>, b: Seq<ElementSpec>, id: ElementId) -> bool {
    match (rga_find(a, id), rga_find(b, id)) {
        (Some(x), Some(y)) => (x.value == y.value || x.value.len() == 0 || y.value.len() == 0) && (
        x.prev == y.prev || x.prev is None || y.prev is None),
        _ => true,
    }
}

/// Merging compatible replicas in either order gives the same structure:
/// any well-formed results of `merge(a, b)` and `merge(b, a)` are equal.
pub proof fn lemma_rga_merge_commutative(
    a: Seq<ElementSpec>,
    b: Seq<ElementSpec>,
    ab: Seq<ElementSpec>,
    ba: Seq<ElementSpec>,
)
    requires
        ids_sorted(ab),
        ids_sorted(ba),
        rga_compatible(a, b),
        forall|id: ElementId| #[trigger] rga_find(ab, id) == merge_find(a, b, id),
        forall|id: ElementId| #[trigger] rga_find(ba, id) == merge_find(b, a, id),
    ensures
        ab == ba,
{
    assert forall|id: ElementId| #[trigger] rga_find(ab, id) == rga_find(ba, id) by {
        assert(compatible_at(a, b, id));
        match (rga_find(a, id), rga_find(b, id)) {
            (Some(x), Some(y)) => {
                lemma_rga_find_some_id(a, id);
                lemma_rga_find_some_id(b, id);
                if x.value.len() == 0 && y.value.len() == 0 {
                    assert(x.value =~= y.value);
                }
                assert(join_elem(x, y) == join_elem(y, x));
            },
            _ => {},
        }
    }
    lemma_rga_canonical(ab, ba);
}

/// Merging is associative: merging `c` into the merge of `a` and `b`
/// equals merging the merge of `b` and `c` into `a`.
pub proof fn lemma_rga_merge_associative(
    a: Seq<ElementSpec>,
    b: Seq<ElementSpec>,
    c: Seq<ElementSpec>,
    ab: Seq<ElementSpec>,
    ab_c: Seq<ElementSpec>,
    bc: Seq<ElementSpec>,
    a_bc: Seq<ElementSpec>,
)
    requires
        ids_sorted(ab_c),
        ids_sorted(a_bc),
        forall|id: ElementId| #[trigger] rga_find(ab, id) == merge_find(a, b, id),
        forall|id: ElementId| #[trigger] rga_find(ab_c, id) == merge_find(ab, c, id),
        forall|id: ElementId| #[trigger] rga_find(bc, id) == merge_find(b, c, id),
        forall|id: ElementId| #[trigger] rga_find(a_bc, id) == merge_find(a, bc, id),
    ensures
        ab_c == a_bc,
{
    assert forall|id: ElementId| #[trigger] rga_find(ab_c, id) == rga_find(a_bc, id) by {
        match (rga_find(a, id), rga_find(b, id), rga_find(c, id)) {
            (Some(x), Some(y), Some(z)) => {
                lemma_rga_find_some_id(a, id);
                lemma_rga_find_some_id(b, id);
                lemma_rga_find_some_id(c, id);
                assert(join_elem(join_elem(x, y), z) == join_elem(x, join_elem(y, z)));
            },
            _ => {},
        }
    }
    lemma_rga_canonical(ab_c, a_bc);
}

/// With the same elements stored, the visible sequence is the same: it
/// depends only on the element set, not on the order of operations that
/// produced it.
pub proof fn lemma_rga_visible_of_elements(a: Seq<ElementSpec>, b: Seq<ElementSpec>)
    requires
        ids_sorted(a),
        ids_sorted(b),
        forall|id: ElementId| #[trigger] rga_find(a, id) == rga_find(b, id),
    ensures
        rga_visible(a) == rga_visible(b),
{
    lemma_rga_canonical(a, b);
}

// ---------------------------------------------------------------------------
// The codec round trip.
// ---------------------------------------------------------------------------

/// An element record parses back to the element it encodes, whatever
/// follows it.
#[verifier::rlimit(100)]
#[verifier::spinoff_prover]
proof fn lemma_elem_parse_encode(e: ElementSpec, rest: Seq<u8>)
    requires
        e.value.len() < 0x100000000,
    ensures
        elem_parse(elem_encode(e) + rest) == Some((e, elem_encode(e).len() as int)),
{
    let enc = elem_encode(e);
    let b = enc + rest;
    lemma_be64_roundtrip(e.id.actor);
    lemma_be64_roundtrip(e.id.counter);
    lemma_be32_roundtrip(e.value.len() as u32);
    let hp: int = match e.prev {
        Some(_) => 17,
        None => 1,
    };
    let i = 16 + hp;
    let vlen = e.value.len() as int;
    assert(enc.len() == i + 4 + vlen + 1);
    assert(b.subrange(0, 8) =~= be64_bytes(e.id.actor)) by {
        assert forall|m: int| 0 <= m < 8 implies #[trigger] b.subrange(0, 8)[m] == be64_bytes(
            e.id.actor,
        )[m] by {
            assert(b[m] == enc[m]);
        }
    }
    assert(b.subrange(8, 16) =~= be64_bytes(e.id.counter)) by {
        assert forall|m: int| 0 <= m < 8 implies #[trigger] b.subrange(8, 16)[m] == be64_bytes(
            e.id.counter,
        )[m] by {
            assert(b[8 + m] == enc[8 + m]);
        }
    }
    assert(id_parse(b) == Some((e.id, 16int)));
    assert(b[16] == enc[16]);
    match e.prev {
        Some(p) => {
            lemma_be64_roundtrip(p.actor);
            lemma_be64_roundtrip(p.counter);
            assert(b[16] == 1u8);
            let tail = b.subrange(17, b.len() as int);
            assert(tail.subrange(0, 8) =~= be64_bytes(p.actor)) by {
                assert forall|m: int| 0 <= m < 8 implies #[trigger] tail.subrange(0, 8)[m]
                    == be64_bytes(p.actor)[m] by {
                    assert(tail[m] == b[17 + m]);
                    assert(b[17 + m] == enc[17 + m]);
                }
            }
            assert(tail.subrange(8, 16) =~= be64_bytes(p.counter)) by {
                assert forall|m: int| 0 <= m < 8 implies #[trigger] tail.subrange(8, 16)[m]
                    == be64_bytes(p.counter)[m] by {
                    assert(tail[8 + m] == b[17 + 8 + m]);
                    assert(b[25 + m] == enc[25 + m]);
                }
            }
            assert(tail.len() >= 16);
            assert(id_parse(tail) == Some((p, 16int)));
        },
        None => {
            assert(b[16] == 0u8);
        },
    }
    assert(b.subrange(i, i + 4) =~= be32_bytes(e.value.len() as u32)) by {
        assert forall|m: int| 0 <= m < 4 implies #[trigger] b.subrange(i, i + 4)[m] == be32_bytes(
            e.value.len() as u32,
        )[m] by {
            assert(b[i + m] == enc[i + m]);
        }
    }
    assert(b.subrange(i + 4, i + 4 + vlen) =~= e.value) by {
        assert forall|m: int| 0 <= m < vlen implies #[trigger] b.subrange(i + 4, i + 4 + vlen)[m]
            == e.value[m] by {
            assert(b[i + 4 + m] == enc[i + 4 + m]);
        }
    }
    assert(b[i + 4 + vlen] == enc[i + 4 + vlen]);
    assert(b[i + 4 + vlen] == (if e.deleted {
        1u8
    } else {
        0u8
    }));
    assert(i + 4 + vlen < b.len());
    assert(elem_parse_tail(b, e.id, e.prev, i) == Some((e, i + 4 + vlen + 1)));
}

/// Parsing reads back exactly the records whose encoding starts at `i`.
#[verifier::rlimit(60)]
#[verifier::spinoff_prover]
proof fn lemma_rga_parse_items_of_encode(b: Seq<u8>, i: int, s: Seq<ElementSpec>)
    requires
        0 <= i <= b.len(),
        b.subrange(i, b.len() as int) == rga_encode_elems(s),
        forall|m: int| 0 <= m < s.len() ==> (#[trigger] s[m]).value.len() < 0x100000000,
    ensures
        rga_parse_items(b, i, s.len() as int) == s,
    decreases s.len(),
{
    if s.len() == 0 {
        assert(b.subrange(i, b.len() as int).len() == b.len() - i);
        assert(rga_encode_elems(s).len() == 0);
    } else {
        let tail = b.subrange(i, b.len() as int);
        let enc = elem_encode(s[0]);
        lemma_elem_parse_encode(s[0], rga_encode_elems(s.drop_first()));
        assert(tail =~= enc + rga_encode_elems(s.drop_first()));
        assert(elem_parse(tail) == Some((s[0], enc.len() as int)));
        assert(enc.len() >= 22);
        assert(i < b.len());
        let n = enc.len() as int;
        assert(b.subrange(i + n, b.len() as int) =~= rga_encode_elems(s.drop_first())) by {
            let rest = rga_encode_elems(s.drop_first());
            assert forall|m: int| 0 <= m < rest.len() implies #[trigger] b.subrange(
                i + n,
                b.len() as int,
            )[m] == rest[m] by {
                assert(b.subrange(i + n, b.len() as int)[m] == tail[n + m]);
            }
        }
        lemma_rga_parse_items_of_encode(b, i + n, s.drop_first());
        assert(rga_parse_items(b, i, s.len() as int) =~= s);
    }
}

/// In a sorted (duplicate-free) list the last match is the first match.
proof fn lemma_last_find_sorted(s: Seq<ElementSpec>, id: ElementId)
    requires
        ids_sorted(s),
    ensures
        last_find(s, id) == rga_find(s, id),
{
    let found = exists|i: int| 0 <= i < s.len() && (#[trigger] s[i]).id == id;
    if found {
        let i = choose|i: int| 0 <= i < s.len() && (#[trigger] s[i]).id == id;
        lemma_rga_find_unique(s, id, i);
        lemma_last_find_unique(s, id, i);
    } else {
        lemma_rga_find_none(s, id);
        lemma_last_find_none(s, id);
    }
}

proof fn lemma_last_find_none(s: Seq<ElementSpec>, id: ElementId)
    requires
        forall|j: int| 0 <= j < s.len() ==> (#[trigger] s[j]).id != id,
    ensures
        last_find(s, id) is None,
    decreases s.len(),
{
    if s.len() > 0 {
        lemma_last_find_none(s.drop_last(), id);
    }
}

proof fn lemma_last_find_unique(s: Seq<ElementSpec>, id: ElementId, i: int)
    requires
        ids_sorted(s),
        0 <= i < s.len(),
        s[i].id == id,
    ensures
        last_find(s, id) == Some(s[i]),
    decreases s.len(),
{
    if i == s.len() - 1 {
        assert(s.last() == s[i]);
    } else {
        assert(id_lt(s[i].id, s.last().id));
        assert forall|m: int, k: int| 0 <= m < k < s.drop_last().len() implies id_lt(
            (#[trigger] s.drop_last()[m]).id,
            (#[trigger] s.drop_last()[k]).id,
        ) by {
            assert(s.drop_last()[m] == s[m] && s.drop_last()[k] == s[k]);
        }
        assert(s.drop_last()[i] == s[i]);
        lemma_last_find_unique(s.drop_last(), id, i);
    }
}

/// A well-formed structure decoded from its own encoding is unchanged:
/// together with the contracts of `to_bytes` and `from_bytes` this is the
/// round-trip law.
pub proof fn lemma_rga_from_to_bytes(g: Seq<ElementSpec>, r: Seq<ElementSpec>)
    requires
        ids_sorted(g),
        ids_sorted(r),
        g.len() < 0x100000000,
        forall|m: int| 0 <= m < g.len() ==> (#[trigger] g[m]).value.len() < 0x100000000,
        forall|id: ElementId| #[trigger]
            rga_find(r, id) == last_find(rga_parse(rga_encode(g)), id),
    ensures
        r == g,
{
    let b = rga_encode(g);
    lemma_be32_roundtrip(g.len() as u32);
    assert(b.subrange(0, 4) =~= be32_bytes(g.len() as u32));
    assert(b.len() >= 4);
    assert(be32_val(b.subrange(0, 4)) == g.len());
    assert(b.subrange(4, b.len() as int) =~= rga_encode_elems(g));
    lemma_rga_parse_items_of_encode(b, 4, g);
    assert(rga_parse(b) == g);
    assert forall|id: ElementId| #[trigger] rga_find(r, id) == rga_find(g, id) by {
        lemma_last_find_sorted(g, id);
    }
    lemma_rga_canonical(r, g);
}


/// The traversal never visits an identifier twice: every visited
/// identifier comes out of `remaining`, which shrinks as it is consumed.
proof fn lemma_dfs_ids_distinct(s: Seq<ElementSpec>, stack: Seq<ElementId>, remaining: Set<ElementId>)
    ensures
        forall|i: int, j: int|
            0 <= i < j < dfs_ids(s, stack, remaining).len() ==> #[trigger] dfs_ids(
                s,
                stack,
                remaining,
            )[i] != #[trigger] dfs_ids(s, stack, remaining)[j],
        forall|i: int|
            0 <= i < dfs_ids(s, stack, remaining).len() ==> remaining.contains(
                #[trigger] dfs_ids(s, stack, remaining)[i],
            ),
    decreases remaining.len(), stack.len(),
{
    if stack.len() > 0 {
        let c = stack.last();
        let rest = stack.drop_last();
        if remaining.finite() && remaining.contains(c) {
            let tail = dfs_ids(
                s,
                rest + children_ids(s, Some(c)).reverse(),
                remaining.remove(c),
            );
            lemma_dfs_ids_distinct(
                s,
                rest + children_ids(s, Some(c)).reverse(),
                remaining.remove(c),
            );
            let whole = dfs_ids(s, stack, remaining);
            assert(whole == seq![c] + tail);
            assert forall|i: int, j: int| 0 <= i < j < whole.len() implies #[trigger] whole[i]
                != #[trigger] whole[j] by {
                if i == 0 {
                    assert(whole[j] == tail[j - 1]);
                    assert(remaining.remove(c).contains(tail[j - 1]));
                } else {
                    assert(whole[i] == tail[i - 1] && whole[j] == tail[j - 1]);
                }
            }
            assert forall|i: int| 0 <= i < whole.len() implies remaining.contains(
                #[trigger] whole[i],
            ) by {
                if i > 0 {
                    assert(whole[i] == tail[i - 1]);
                    assert(remaining.remove(c).contains(tail[i - 1]));
                }
            }
        } else {
            lemma_dfs_ids_distinct(s, rest, remaining);
            let whole = dfs_ids(s, stack, remaining);
            let prev = dfs_ids(s, rest, remaining);
            assert(whole == prev);
            assert forall|i: int, j: int| 0 <= i < j < whole.len() implies #[trigger] whole[i]
                != #[trigger] whole[j] by {
                assert(whole[i] == prev[i] && whole[j] == prev[j]);
            }
            assert forall|i: int| 0 <= i < whole.len() implies remaining.contains(
                #[trigger] whole[i],
            ) by {
                assert(whole[i] == prev[i]);
            }
        }
    }
}

/// One half of the once-per-element reading of the visible sequence: the
/// traversal behind `rga_visible` emits each identifier at most once.
/// (That every live element anchored under the head is reached is the
/// other half, and is not stated here.)
pub proof fn lemma_traversal_distinct(s: Seq<ElementSpec>)
    ensures
        forall|i: int, j: int|
            0 <= i < j < rga_traversal(s).len() ==> #[trigger] rga_traversal(s)[i]
                != #[trigger] rga_traversal(s)[j],
{
    lemma_dfs_ids_distinct(s, children_ids(s, None).reverse(), ids_of(s));
}

/// The value belongs to a stored element that is not tombstoned.
pub open spec fn live_value_of(s: Seq<ElementSpec>, v: Seq<u8>) -> bool {
    exists|id: ElementId| #[trigger] rga_find(s, id) matches Some(e) && !e.deleted && e.value == v
}

/// Every value of `visible_values` is a stored, non-tombstoned element's
/// value: tombstoned elements are never emitted.
proof fn lemma_visible_values_live(s: Seq<ElementSpec>, ids: Seq<ElementId>)
    ensures
        forall|m: int|
            0 <= m < visible_values(s, ids).len() ==> live_value_of(
                s,
                #[trigger] visible_values(s, ids)[m],
            ),
    decreases ids.len(),
{
    if ids.len() > 0 {
        lemma_visible_values_live(s, ids.drop_first());
        let whole = visible_values(s, ids);
        let tail = visible_values(s, ids.drop_first());
        assert forall|m: int| 0 <= m < whole.len() implies live_value_of(
            s,
            #[trigger] whole[m],
        ) by {
            match rga_find(s, ids[0]) {
                Some(e) => {
                    if !e.deleted {
                        if m == 0 {
                            assert(rga_find(s, ids[0]) matches Some(e2) && !e2.deleted
                                && e2.value == whole[0]);
                        } else {
                            assert(whole[m] == tail[m - 1]);
                        }
                    } else {
                        assert(whole[m] == tail[m]);
                    }
                },
                None => {
                    assert(whole[m] == tail[m]);
                },
            }
        }
    }
}

/// The other half of the tombstone reading: every value the visible
/// sequence emits belongs to a stored element that is not tombstoned.
pub proof fn lemma_visible_values_are_live(s: Seq<ElementSpec>)
    ensures
        forall|m: int|
            0 <= m < rga_visible(s).len() ==> live_value_of(s, #[trigger] rga_visible(s)[m]),
{
    lemma_visible_values_live(s, rga_traversal(s));
}

} // verus!
