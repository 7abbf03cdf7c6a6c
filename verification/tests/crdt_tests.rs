use zynk::rga::{ElementId, Rga};
use zynk::GSet;

fn b(v: &str) -> Vec<u8> {
    v.as_bytes().to_vec()
}

// Basic union test
#[test]
fn merge_union_basic() {
    let mut g1 = GSet::new();
    g1.insert(b("a"));
    g1.insert(b("b"));

    let mut g2 = GSet::new();
    g2.insert(b("b"));
    g2.insert(b("c"));

    g1.merge(&g2);

    let expected = vec![b("a"), b("b"), b("c")];
    assert_eq!(g1.elements(), expected);
}

// Serialize, deserialize, merge
#[test]
fn merge_from_serialized_blobs() {
    let mut local = GSet::new();
    local.insert(b("alpha"));
    local.insert(b("beta"));

    let mut remote = GSet::new();
    remote.insert(b("beta"));
    remote.insert(b("gamma"));

    println!(
        "Local before merge: {:?}",
        local
            .elements()
            .iter()
            .map(|v| String::from_utf8_lossy(v).to_string())
            .collect::<Vec<_>>()
    );
    println!(
        "Remote before merge: {:?}",
        remote
            .elements()
            .iter()
            .map(|v| String::from_utf8_lossy(v).to_string())
            .collect::<Vec<_>>()
    );

    let remote_bytes = remote.to_bytes();
    println!(
        "Remote serialized bytes (hex): {}",
        hex::encode(&remote_bytes)
    );

    let remote_deser = GSet::from_bytes(&remote_bytes);
    println!(
        "Remote deserialized: {:?}",
        remote_deser
            .elements()
            .iter()
            .map(|v| String::from_utf8_lossy(v).to_string())
            .collect::<Vec<_>>()
    );

    local.merge(&remote_deser);
    println!(
        "Local after merge: {:?}",
        local
            .elements()
            .iter()
            .map(|v| String::from_utf8_lossy(v).to_string())
            .collect::<Vec<_>>()
    );

    let expected = vec![b("alpha"), b("beta"), b("gamma")];
    assert_eq!(local.elements(), expected);
}

// malformed input: unsorted elements and duplicates
#[test]
fn merge_handles_unsorted_and_duplicates_in_bytes() {
    let mut blob = Vec::new();
    // count = 4
    blob.extend(&(4u32.to_be_bytes()));
    // "z"
    blob.extend(&(1u32.to_be_bytes()));
    blob.extend(b"z");
    // "a"
    blob.extend(&(1u32.to_be_bytes()));
    blob.extend(b"a");
    // "a" duplicate
    blob.extend(&(1u32.to_be_bytes()));
    blob.extend(b"a");
    // "m"
    blob.extend(&(1u32.to_be_bytes()));
    blob.extend(b"m");

    let mut local = GSet::new();
    local.insert(b("b"));
    local.insert(b("m"));

    let remote = GSet::from_bytes(&blob);
    assert_eq!(remote.elements(), vec![b("a"), b("m"), b("z")]);
    local.merge(&remote);
    assert_eq!(local.elements(), vec![b("a"), b("b"), b("m"), b("z")]);
}

fn s(v: &str) -> Vec<u8> {
    v.as_bytes().to_vec()
}

fn show_seq(seq: &[Vec<u8>]) -> Vec<String> {
    seq.iter()
        .map(|b| String::from_utf8_lossy(b).to_string())
        .collect()
}

#[test]
fn rga_basic_insert_tail() {
    println!("TEST: rga_basic_insert_tail");
    let mut r = Rga::new();

    let a = ElementId::new(1, 1);
    r.insert(a, None, s("A"));
    println!("After insert A: {:?}", show_seq(&r.visible_sequence()));

    let b = ElementId::new(1, 2);
    r.insert(b, Some(a), s("B"));
    println!(
        "After insert B after A: {:?}",
        show_seq(&r.visible_sequence())
    );

    assert_eq!(
        show_seq(&r.visible_sequence()),
        vec!["A".to_string(), "B".to_string()]
    );
}

#[test]
fn rga_insert_at_head_and_sibling_ordering() {
    println!("TEST: rga_insert_at_head_and_sibling_ordering");
    let mut r = Rga::new();

    // two inserts at head (prev = None) with different ids -> deterministic order by ElementId
    let id1 = ElementId::new(2, 1); // actor 2
    let id2 = ElementId::new(1, 1); // actor 1 (id2 < id1)
    r.insert(id1, None, s("X"));
    r.insert(id2, None, s("Y"));

    println!(
        "Elements inserted at head: {:?}",
        show_seq(&r.visible_sequence())
    );
    // ordering by ElementId (actor then counter) -> id2 (actor1) before id1 (actor2)
    assert_eq!(
        show_seq(&r.visible_sequence()),
        vec!["Y".to_string(), "X".to_string()]
    );
}

#[test]
fn rga_delete_element() {
    println!("TEST: rga_delete_element");
    let mut r = Rga::new();
    let a = ElementId::new(1, 1);
    let b = ElementId::new(1, 2);
    let c = ElementId::new(1, 3);

    r.insert(a, None, s("one"));
    r.insert(b, Some(a), s("two"));
    r.insert(c, Some(b), s("three"));
    println!("Before delete: {:?}", show_seq(&r.visible_sequence()));

    r.delete(b);
    println!(
        "After delete of 'two' (tombstoned): {:?}",
        show_seq(&r.visible_sequence())
    );

    assert_eq!(
        show_seq(&r.visible_sequence()),
        vec!["one".to_string(), "three".to_string()]
    );
}

#[test]
fn rga_merge_concurrent_inserts() {
    println!("TEST: rga_merge_concurrent_inserts");
    // replica 1
    let mut r1 = Rga::new();
    let a1 = ElementId::new(1, 1);
    r1.insert(a1, None, s("A"));

    // replica 2
    let mut r2 = Rga::new();
    let b2 = ElementId::new(2, 1);
    r2.insert(b2, None, s("B"));

    println!("r1 before merge: {:?}", show_seq(&r1.visible_sequence()));
    println!("r2 before merge: {:?}", show_seq(&r2.visible_sequence()));

    // merge r2 into r1
    r1.merge(&r2);
    println!(
        "r1 after merge r2->r1: {:?}",
        show_seq(&r1.visible_sequence())
    );

    // merge is commutative; resulting visible sequence deterministic by ElementId ordering:
    assert_eq!(
        show_seq(&r1.visible_sequence()),
        vec!["A".to_string(), "B".to_string()]
    );
}

#[test]
fn rga_merge_delete_tombstone() {
    println!("TEST: rga_merge_delete_tombstone");
    // replica 1 has A,B
    let mut r1 = Rga::new();
    let a1 = ElementId::new(1, 1);
    let b1 = ElementId::new(1, 2);
    r1.insert(a1, None, s("A"));
    r1.insert(b1, Some(a1), s("B"));

    // replica 2 only carries a tombstone for B (delete)
    let mut r2 = Rga::new();
    r2.delete(b1);

    println!("r1 before merge: {:?}", show_seq(&r1.visible_sequence()));
    println!(
        "r2 (tombstone) before merge: {:?}",
        show_seq(&r2.visible_sequence())
    );

    r1.merge(&r2);
    println!(
        "r1 after merging tombstone: {:?}",
        show_seq(&r1.visible_sequence())
    );

    assert_eq!(show_seq(&r1.visible_sequence()), vec!["A".to_string()]);
}

#[test]
fn rga_serialize_roundtrip() {
    println!("TEST: rga_serialize_roundtrip");
    let mut r = Rga::new();
    r.insert(ElementId::new(3, 1), None, s("alpha"));
    r.insert(ElementId::new(3, 2), Some(ElementId::new(3, 1)), s("beta"));
    println!("Original visible: {:?}", show_seq(&r.visible_sequence()));

    let bytes = r.to_bytes();
    println!(
        "Serialized bytes (len={}): {:02x?}",
        bytes.len(),
        &bytes[..std::cmp::min(bytes.len(), 64)]
    );
    let r2 = Rga::from_bytes(&bytes);
    println!(
        "Deserialized visible: {:?}",
        show_seq(&r2.visible_sequence())
    );

    assert_eq!(
        show_seq(&r.visible_sequence()),
        show_seq(&r2.visible_sequence())
    );
}

#[test]
fn rga_complex_merge_with_prev_links() {
    println!("TEST: rga_complex_merge_with_prev_links");
    // actor1 inserts A (1,1)
    let mut r1 = Rga::new();
    let a = ElementId::new(1, 1);
    r1.insert(a, None, s("A"));

    // actor2 inserts B after A concurrently
    let mut r2 = Rga::new();
    let b = ElementId::new(2, 1);
    r2.insert(b, Some(a), s("B"));

    // actor1 inserts C after A concurrently
    r1.insert(ElementId::new(1, 2), Some(a), s("C"));

    println!("r1 before merge: {:?}", show_seq(&r1.visible_sequence())); // A, C
    println!("r2 before merge: {:?}", show_seq(&r2.visible_sequence())); // B

    // merge r2 -> r1
    r1.merge(&r2);
    println!("r1 after merge: {:?}", show_seq(&r1.visible_sequence()));

    // children of A are ids (1,2) and (2,1). Ordering: ElementId ord -> (1,2) then (2,1)
    assert_eq!(
        show_seq(&r1.visible_sequence()),
        vec!["A".to_string(), "C".to_string(), "B".to_string()]
    );
}
