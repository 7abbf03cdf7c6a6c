use zynk::engine::{LsmEngine, LsmError};
use zynk::manifest::{record_add_table, record_remove_table, replay_manifest};
use zynk::memtable::{Entry, MemTable};
use zynk::rga::ElementId;
use zynk::sst_builder::flush_memtable_to_sstable;
use zynk::sst_format::SstError;
use zynk::sst_reader::SsTableReader;
use zynk::index::{BlockHandle, Index};
use zynk::rga::Rga;
use zynk::sst_format::{SSTABLE_MAGIC, SSTABLE_VERSION};
use zynk::MemTableSet;

fn b(v: &str) -> Vec<u8> {
    v.as_bytes().to_vec()
}

#[test]
fn put_then_get_sees_the_write() {
    let mut eng = LsmEngine::new(64 * 1024, 8 * 1024);
    eng.put(b"k", b"v1");
    assert_eq!(eng.get(b"k").unwrap(), Some(b("v1")));
    assert_eq!(eng.get(b"absent").unwrap(), None);
}

#[test]
fn second_put_wins() {
    let mut eng = LsmEngine::new(64 * 1024, 8 * 1024);
    eng.put(b"k", b"v1");
    eng.put(b"k", b"v2");
    assert_eq!(eng.get(b"k").unwrap(), Some(b("v2")));
}

#[test]
fn tombstone_shadows_put() {
    let mut eng = LsmEngine::new(64 * 1024, 8 * 1024);
    eng.put(b"k", b"v");
    eng.delete(b"k");
    assert_eq!(eng.get(b"k").unwrap(), None);
}

// memtable_max_bytes=64, block_size=32: writes cross the threshold and
// flush, and reads still see every write.
#[test]
fn flush_boundary_keeps_reads() {
    let mut eng = LsmEngine::new(64, 32);
    let mut flushed = 0;
    // Each entry costs 1 + 4 + 4 + 3 + 1 = 13 bytes; the fifth write
    // crosses the 64-byte threshold and flushes.
    for (k, v) in [
        ("aaa", "1"),
        ("bbb", "2"),
        ("ccc", "3"),
        ("ddd", "4"),
        ("eee", "5"),
    ] {
        if eng.put(k.as_bytes(), v.as_bytes()).is_some() {
            flushed += 1;
        }
    }
    assert_eq!(flushed, 1);
    assert_eq!(eng.get(b"eee").unwrap(), Some(b("5")));
    assert_eq!(eng.get(b"aaa").unwrap(), Some(b("1")));
    assert_eq!(eng.get(b"ddd").unwrap(), Some(b("4")));
    assert_eq!(eng.get(b"zzz").unwrap(), None);
}

// Delete shadow across flushes: a tombstone in a newer table hides an
// older table's value.
#[test]
fn delete_shadow_survives_flushes() {
    let mut eng = LsmEngine::new(64 * 1024, 8 * 1024);
    eng.put(b"k", b"v");
    assert!(eng.flush().is_some());
    eng.delete(b"k");
    assert_eq!(eng.get(b"k").unwrap(), None);
    assert!(eng.flush().is_some());
    assert_eq!(eng.get(b"k").unwrap(), None);
}

// Flush preserves every read.
#[test]
fn flush_preserves_reads() {
    let mut eng = LsmEngine::new(64 * 1024, 8 * 1024);
    eng.put(b"a", b"1");
    eng.put(b"b", b"2");
    eng.delete(b"a");
    let before_a = eng.get(b"a").unwrap();
    let before_b = eng.get(b"b").unwrap();
    let before_z = eng.get(b"z").unwrap();
    eng.flush();
    assert_eq!(eng.get(b"a").unwrap(), before_a);
    assert_eq!(eng.get(b"b").unwrap(), before_b);
    assert_eq!(eng.get(b"z").unwrap(), before_z);
}

// Flushing an empty memtable is a no-op: no table, no id consumed.
#[test]
fn empty_flush_consumes_no_id() {
    let mut eng = LsmEngine::new(64 * 1024, 8 * 1024);
    assert_eq!(eng.next_table_id(), 1);
    assert!(eng.flush().is_none());
    assert_eq!(eng.next_table_id(), 1);
    eng.put(b"k", b"v");
    let ft = eng.flush().expect("non-empty memtable flushes");
    assert_eq!(ft.id, 1);
    assert_eq!(eng.next_table_id(), 2);
}

// Recovery keeps exactly the images that open, in order, and continues
// the id sequence after the highest supplied id.
#[test]
fn recovery_skips_unopenable_images() {
    let mut eng = LsmEngine::new(64 * 1024, 8 * 1024);
    eng.put(b"a", b"1");
    let t1 = eng.flush().unwrap();
    eng.put(b"b", b"2");
    let t2 = eng.flush().unwrap();
    let mut broken = t1.bytes.clone();
    let n = broken.len();
    broken[n - 1] ^= 0xff; // ruin the magic number: the image no longer opens
    let eng2 = LsmEngine::open_with_tables(
        64 * 1024,
        8 * 1024,
        vec![(t1.id, broken), (t2.id, t2.bytes)],
        None,
    );
    assert_eq!(eng2.get(b"a").unwrap(), None, "the broken table is skipped");
    assert_eq!(eng2.get(b"b").unwrap(), Some(b("2")));
    assert_eq!(eng2.next_table_id(), t2.id + 1);
}

// Restart recovery: persist the flushed image, reopen over it.
#[test]
fn restart_recovers_flushed_table() {
    let mut eng = LsmEngine::new(64 * 1024, 8 * 1024);
    eng.put(b"x", b"1");
    let ft = eng.flush().expect("non-empty memtable flushes");
    assert_eq!(ft.id, 1);
    let mut manifest_log = Vec::new();
    manifest_log.extend(record_add_table(ft.id));
    drop(eng);

    let live = replay_manifest(&manifest_log);
    assert_eq!(live, vec![1]);
    let eng2 = LsmEngine::open_with_tables(64 * 1024, 8 * 1024, vec![(ft.id, ft.bytes)], None);
    assert_eq!(eng2.get(b"x").unwrap(), Some(b("1")));
    assert_eq!(eng2.get(b"y").unwrap(), None);
}

// A flush cycle of N entries yields a table holding exactly those N
// records in ascending key order.
#[test]
fn flushed_table_holds_all_records_in_order() {
    let mut mem = MemTable::new(1 << 20);
    mem.put(b"b", b"2");
    mem.put(b"a", b"1");
    mem.put(b"c", b"3");
    mem.delete(b"d");
    assert_eq!(mem.len(), 4);
    assert_eq!(mem.smallest_key().unwrap(), &b("a"));
    assert_eq!(mem.largest_key().unwrap(), &b("d"));

    let (bytes, meta) = flush_memtable_to_sstable(&mem, 16);
    assert_eq!(meta.smallest, b("a"));
    assert_eq!(meta.largest, b("d"));
    assert_eq!(meta.file_len as usize, bytes.len());

    let reader = SsTableReader::open(bytes).unwrap();
    for (k, v) in [("a", "1"), ("b", "2"), ("c", "3")] {
        match reader.get(k.as_bytes()).unwrap() {
            Some(Entry::Put(got)) => assert_eq!(got, b(v)),
            other => panic!("expected a put for {k}, got {other:?}"),
        }
    }
    match reader.get(b"d").unwrap() {
        Some(Entry::Delete) => {}
        other => panic!("expected a tombstone, got {other:?}"),
    }
    assert!(reader.get(b"e").unwrap().is_none());
}

// The reader fails cleanly on a corrupted block CRC, a wrong magic
// number, and a truncated footer.
#[test]
fn reader_rejects_corruption() {
    let mut mem = MemTable::new(1 << 20);
    mem.put(b"key", b"value");
    let (bytes, _) = flush_memtable_to_sstable(&mem, 4096);

    // Corrupt one payload byte: the checksum no longer matches.
    let mut crc_bad = bytes.clone();
    crc_bad[2] ^= 0xff;
    let reader = SsTableReader::open(crc_bad).unwrap();
    assert_eq!(reader.get(b"key").unwrap_err(), SstError::CrcMismatch);

    // Corrupt the trailing magic number.
    let mut magic_bad = bytes.clone();
    let n = magic_bad.len();
    magic_bad[n - 1] ^= 0xff;
    assert!(matches!(
        SsTableReader::open(magic_bad),
        Err(SstError::BadMagic)
    ));

    // Truncate below one footer.
    let short: Vec<u8> = bytes[..10].to_vec();
    assert!(matches!(
        SsTableReader::open(short),
        Err(SstError::ShortFile)
    ));
}

// Remaining reader error shapes: wrong version, an index range past the
// end, an index block that does not decode, and a block range shorter
// than its checksum.
#[test]
fn reader_rejects_bad_version_and_index() {
    let mut mem = MemTable::new(1 << 20);
    mem.put(b"key", b"value");
    let (bytes, _) = flush_memtable_to_sstable(&mem, 4096);
    let n = bytes.len();

    let mut version_bad = bytes.clone();
    version_bad[n - 12] ^= 0xff;
    assert!(matches!(
        SsTableReader::open(version_bad),
        Err(SstError::BadVersion)
    ));

    let mut offset_bad = bytes.clone();
    // Point the index past the end of the file.
    offset_bad[n - 24..n - 16].copy_from_slice(&(u64::MAX).to_le_bytes());
    assert!(matches!(
        SsTableReader::open(offset_bad),
        Err(SstError::ShortIndex)
    ));

    let mut index_bad = bytes.clone();
    // An index shorter than its own count field cannot decode.
    index_bad[n - 16..n - 12].copy_from_slice(&2u32.to_le_bytes());
    assert!(matches!(
        SsTableReader::open(index_bad),
        Err(SstError::BadIndex)
    ));
}

#[test]
fn reader_rejects_short_block() {
    // A file whose one index entry points at a block shorter than its
    // own checksum.
    let mut ix = Index::new();
    ix.add(b"key", BlockHandle { offset: 0, length: 3 });
    let ix_bytes = ix.encode();
    let mut file = Vec::new();
    file.extend(&ix_bytes);
    let mut footer = Vec::new();
    footer.extend(&0u64.to_le_bytes());
    footer.extend(&(ix_bytes.len() as u32).to_le_bytes());
    footer.extend(&SSTABLE_VERSION.to_le_bytes());
    footer.extend(&SSTABLE_MAGIC.to_le_bytes());
    file.extend(&footer);
    let reader = SsTableReader::open(file).unwrap();
    assert_eq!(reader.get(b"key").unwrap_err(), SstError::ShortBlock);
}

// Merging is idempotent, commutative and associative on concrete sets.
#[test]
fn gset_merge_laws_on_values() {
    let mut a = zynk::GSet::new();
    a.insert(b("x"));
    a.insert(b("y"));
    let mut bset = zynk::GSet::new();
    bset.insert(b("y"));
    bset.insert(b("z"));
    let mut c = zynk::GSet::new();
    c.insert(b("w"));

    // idempotent
    let mut aa = zynk::GSet::from_bytes(&a.to_bytes());
    let a2 = zynk::GSet::from_bytes(&a.to_bytes());
    aa.merge(&a2);
    assert_eq!(aa.elements(), a.elements());

    // commutative
    let mut ab = zynk::GSet::from_bytes(&a.to_bytes());
    ab.merge(&bset);
    let mut ba = zynk::GSet::from_bytes(&bset.to_bytes());
    ba.merge(&a);
    assert_eq!(ab.elements(), ba.elements());

    // associative
    let mut ab_c = zynk::GSet::from_bytes(&ab.to_bytes());
    ab_c.merge(&c);
    let mut bc = zynk::GSet::from_bytes(&bset.to_bytes());
    bc.merge(&c);
    let mut a_bc = zynk::GSet::from_bytes(&a.to_bytes());
    a_bc.merge(&bc);
    assert_eq!(ab_c.elements(), a_bc.elements());
}

// Merging is idempotent, commutative and associative on concrete arrays.
#[test]
fn rga_merge_laws_on_values() {
    let mut a = Rga::new();
    a.insert(ElementId::new(1, 1), None, b("A"));
    let mut bb = Rga::new();
    bb.insert(ElementId::new(2, 1), None, b("B"));
    bb.delete(ElementId::new(1, 1));
    let mut c = Rga::new();
    c.insert(ElementId::new(3, 1), Some(ElementId::new(1, 1)), b("C"));

    // idempotent
    let mut aa = Rga::from_bytes(&a.to_bytes());
    let a2 = Rga::from_bytes(&a.to_bytes());
    aa.merge(&a2);
    assert_eq!(aa.to_bytes(), a.to_bytes());

    // commutative
    let mut ab = Rga::from_bytes(&a.to_bytes());
    ab.merge(&bb);
    let mut ba = Rga::from_bytes(&bb.to_bytes());
    ba.merge(&a);
    assert_eq!(ab.to_bytes(), ba.to_bytes());

    // associative
    let mut ab_c = Rga::from_bytes(&ab.to_bytes());
    ab_c.merge(&c);
    let mut bc = Rga::from_bytes(&bb.to_bytes());
    bc.merge(&c);
    let mut a_bc = Rga::from_bytes(&a.to_bytes());
    a_bc.merge(&bc);
    assert_eq!(ab_c.to_bytes(), a_bc.to_bytes());
    // The tombstone won: A is hidden, C stays anchored under it.
    assert_eq!(ab_c.visible_sequence(), vec![b("C"), b("B")]);
}

// Manifest replay: add a; add b; remove a leaves [b], in order.
#[test]
fn manifest_replay_add_add_remove() {
    let mut log = Vec::new();
    log.extend(record_add_table(10));
    log.extend(record_add_table(11));
    log.extend(record_remove_table(10));
    assert_eq!(replay_manifest(&log), vec![11]);
    assert_eq!(record_add_table(10), b"add 10\n".to_vec());
    assert_eq!(record_remove_table(10), b"remove 10\n".to_vec());
}

#[test]
fn manifest_replay_ignores_garbage_lines() {
    let log = b"add 1\nnonsense\nadd 2\nremove nope\nadd 3\nremove 2\n".to_vec();
    assert_eq!(replay_manifest(&log), vec![1, 3]);
    assert_eq!(replay_manifest(b""), Vec::<u64>::new());
}

// G-Set convergence through the engine's read-modify-write path.
#[test]
fn gset_converges_through_engine() {
    let mut eng = LsmEngine::new(64 * 1024, 8 * 1024);
    eng.gset_add(b("tags"), b("alpha")).unwrap();
    eng.gset_add(b("tags"), b("beta")).unwrap();
    eng.gset_add(b("tags"), b("beta")).unwrap();
    eng.gset_add(b("tags"), b("gamma")).unwrap();
    let got = eng.gset_get(b"tags").unwrap();
    assert_eq!(got, vec![b("alpha"), b("beta"), b("gamma")]);
    assert_eq!(eng.gset_get(b"other").unwrap(), Vec::<Vec<u8>>::new());
}

// RGA concurrent inserts through the engine: ordering by ElementId.
#[test]
fn rga_concurrent_inserts_through_engine() {
    let mut eng = LsmEngine::new(64 * 1024, 8 * 1024);
    eng.rga_insert_after(b"doc", None, b("A"), 1, 1).unwrap();
    eng.rga_insert_after(b"doc", None, b("B"), 2, 1).unwrap();
    let visible = eng.rga_get_visible(b"doc").unwrap();
    assert_eq!(visible, vec![b("A"), b("B")]);
}

// RGA delete versus a concurrent child: the tombstoned parent still
// anchors its surviving children.
#[test]
fn rga_delete_keeps_children_anchored() {
    let mut eng = LsmEngine::new(64 * 1024, 8 * 1024);
    eng.rga_insert_after(b"doc", None, b("A"), 1, 1).unwrap();
    eng.rga_insert_after(b"doc", Some(ElementId::new(1, 1)), b("B"), 1, 2)
        .unwrap();
    eng.rga_delete(b"doc", ElementId::new(1, 2)).unwrap();
    assert_eq!(eng.rga_get_visible(b"doc").unwrap(), vec![b("A")]);
    eng.rga_insert_after(b"doc", Some(ElementId::new(1, 2)), b("C"), 1, 3)
        .unwrap();
    assert_eq!(eng.rga_get_visible(b"doc").unwrap(), vec![b("A"), b("C")]);
}

#[test]
fn rga_insert_existing_id_is_noop() {
    let mut r = zynk::rga::Rga::new();
    let id = ElementId::new(7, 1);
    r.insert(id, None, b("first"));
    r.insert(id, None, b("second"));
    assert_eq!(r.visible_sequence(), vec![b("first")]);
}

#[test]
fn memtable_tracks_bytes_exactly() {
    let mut mem = MemTable::new(1 << 20);
    assert!(mem.is_empty());
    mem.put(b"key", b"value");
    // 1 + 4 + 4 + keylen + valuelen
    assert_eq!(mem.bytes_used(), 9 + 3 + 5);
    mem.put(b"key", b"v");
    assert_eq!(mem.bytes_used(), 9 + 3 + 1);
    mem.delete(b"key");
    assert_eq!(mem.bytes_used(), 9 + 3);
    assert!(mem.contains_key(b"key"));
    assert_eq!(mem.max_bytes(), 1 << 20);
    assert!(!mem.over_threshold());
}

#[test]
fn memtable_set_freezes_on_threshold() {
    let mut set = MemTableSet::with_capacity(20);
    assert_eq!(set.immutables_len(), 0);
    let rotated = set.put(b"a", b"1");
    assert!(!rotated);
    assert_eq!(set.active_bytes(), 9 + 1 + 1);
    let rotated = set.put(b"b", b"123456789");
    assert!(rotated, "crossing 20 bytes freezes the active buffer");
    assert_eq!(set.immutables_len(), 1);
    assert_eq!(set.active_bytes(), 0);
    match set.get(b"a") {
        Some(Entry::Put(v)) => assert_eq!(v, &b("1")),
        other => panic!("expected the frozen put, got {other:?}"),
    }
    let frozen = set.pop_immutable().expect("one frozen buffer");
    assert_eq!(frozen.len(), 2);
    assert!(set.pop_immutable().is_none());
    assert!(set.get(b"a").is_none());
}

#[test]
fn gset_from_bytes_normalizes_any_input() {
    // Truncated input: decoding stops at the first short read.
    let mut blob = Vec::new();
    blob.extend(&(3u32.to_be_bytes()));
    blob.extend(&(1u32.to_be_bytes()));
    blob.extend(b"q");
    blob.extend(&(9u32.to_be_bytes()));
    blob.extend(b"xy");
    let g = zynk::GSet::from_bytes(&blob);
    assert_eq!(g.elements(), vec![b("q")]);
    assert!(g.contains(b"q"));
    assert!(!g.contains(b"xy"));
    assert_eq!(g.len(), 1);
    assert_eq!(zynk::GSet::from_bytes(b"").len(), 0);
}

#[test]
fn engine_errors_on_corrupt_loaded_table() {
    let mut mem = MemTable::new(1 << 20);
    mem.put(b"key", b"value");
    let (bytes, _) = flush_memtable_to_sstable(&mem, 4096);
    let mut bad = bytes.clone();
    bad[2] ^= 0xff;
    let eng = LsmEngine::open_with_tables(64 * 1024, 8 * 1024, vec![(1, bad)], None);
    assert_eq!(eng.get(b"key").unwrap_err(), LsmError::Table(SstError::CrcMismatch));
}
