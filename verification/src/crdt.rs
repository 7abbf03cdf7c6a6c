//! The common face of the replicated value types: a binary codec and a
//! state merge. Merging is what convergence rests on; each implementer
//! states its own laws over its model.

use vstd::prelude::*;

use crate::gset::{elems_sorted, GSet};
use crate::rga::{ids_sorted, Rga};

verus! {

/// A state-based replicated value: it encodes itself, decodes leniently
/// from any bytes, and merges another replica's state in.
pub trait CRDT: Sized {
    /// The type's internal invariant.
    spec fn inv(&self) -> bool;

    /// The value fits the codec's length fields.
    spec fn encodable(&self) -> bool;

    fn to_bytes(&self) -> (r: Vec<u8>)
        requires
            self.inv(),
            self.encodable(),
    ;

    fn from_bytes(bytes: &[u8]) -> (r: Self)
        ensures
            r.inv(),
    ;

    fn merge(&mut self, other: &Self)
        requires
            old(self).inv(),
            other.inv(),
        ensures
            final(self).inv(),
    ;
}

impl CRDT for GSet {
    open spec fn inv(&self) -> bool {
        elems_sorted(self@)
    }

    open spec fn encodable(&self) -> bool {
        self@.len() < 0x100000000 && forall|m: int|
            0 <= m < self@.len() ==> (#[trigger] self@[m]).len() < 0x100000000
    }

    fn to_bytes(&self) -> (r: Vec<u8>) {
        self.to_bytes()
    }

    fn from_bytes(bytes: &[u8]) -> (r: Self) {
        GSet::from_bytes(bytes)
    }

    fn merge(&mut self, other: &Self) {
        self.merge(other)
    }
}

impl CRDT for Rga {
    open spec fn inv(&self) -> bool {
        ids_sorted(self@)
    }

    open spec fn encodable(&self) -> bool {
        self@.len() < 0x100000000 && forall|m: int|
            0 <= m < self@.len() ==> (#[trigger] self@[m]).value.len() < 0x100000000
    }

    fn to_bytes(&self) -> (r: Vec<u8>) {
        self.to_bytes()
    }

    fn from_bytes(bytes: &[u8]) -> (r: Self) {
        Rga::from_bytes(bytes)
    }

    fn merge(&mut self, other: &Self) {
        self.merge(other)
    }
}

} // verus!
