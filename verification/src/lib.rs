//! An embedded ordered key-value store built on a log-structured merge design,
//! extended with two state-based CRDT value models: a grow-only set and a
//! replicated growable array.
//!
//! Writes enter an in-memory ordered buffer; when it crosses its byte
//! threshold it is frozen and serialized into an immutable sorted-string
//! table, and the manifest records the table as live. Reads consult the
//! buffers first, then the tables newest first; a tombstone shadows every
//! older write. The replicated types ride on the same key-value path and
//! converge under state merge.

pub mod block;
pub mod checksum;
pub mod crdt;
pub mod crdt_kv;
pub mod engine;
pub mod gset;
pub mod index;
pub mod manifest;
pub mod memtable;
pub mod memtable_set;
pub mod rga;
pub mod sst_builder;
pub mod sst_format;
pub mod sst_reader;
pub mod wire;

pub use crdt::CRDT;
pub use gset::GSet;
pub use memtable::{Entry, MemTable};
pub use memtable_set::MemTableSet;
pub use rga::{Element, ElementId, Rga};
pub use wire::ByteCmp;
