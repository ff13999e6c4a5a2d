use meili_store::doc_ids::{
    check_region_len, decode_all, search_ids, DocIds, DocIdsBuilder, DocIdsError,
};

fn region(ids: &[u64]) -> Vec<u8> {
    let mut out = Vec::new();
    for id in ids {
        out.extend_from_slice(&id.to_ne_bytes());
    }
    out
}

#[test]
fn builder_scenario_orders_and_dedups() {
    let mut b = DocIdsBuilder::new(());
    assert!(b.insert(42));
    assert!(b.insert(7));
    assert!(!b.insert(42));
    assert!(b.insert(19));
    let (bytes, _) = b.into_bytes();
    assert_eq!(bytes.len(), 24);
    assert_eq!(bytes, region(&[7, 19, 42]));
    let set = DocIds::from_bytes(bytes).unwrap();
    assert!(set.contains(19));
    assert!(!set.contains(20));
    assert_eq!(set.doc_ids(), vec![7, 19, 42]);
}

#[test]
fn built_set_membership_and_bounds() {
    let ids = [1000u64, 3, 20, 10, 55, 4];
    let mut b = DocIdsBuilder::new(Vec::<u8>::new());
    for id in ids {
        assert!(b.insert(id));
    }
    let (bytes, _) = b.into_bytes();
    let set = DocIds::from_bytes(bytes).unwrap();
    for id in ids {
        assert!(set.contains(id));
    }
    assert!(!set.contains(2));
    assert!(!set.contains(1001));
    assert!(!set.contains(11));
    assert!(!set.contains(0));
    assert!(!set.contains(u64::MAX));
}

#[test]
fn insert_twice_keeps_one() {
    let mut b = DocIdsBuilder::new(());
    assert!(b.insert(5));
    assert!(!b.insert(5));
    let (bytes, _) = b.into_bytes();
    assert_eq!(bytes, region(&[5]));
}

#[test]
fn empty_builder_gives_empty_set() {
    let b = DocIdsBuilder::new(());
    let (bytes, _) = b.into_bytes();
    assert!(bytes.is_empty());
    let set = DocIds::from_bytes(bytes).unwrap();
    assert!(!set.contains(0));
    assert!(!set.contains(1));
    assert!(!set.contains(u64::MAX));
    assert!(set.as_bytes().is_empty());
    assert!(set.doc_ids().is_empty());
}

#[test]
fn builder_returns_its_sink() {
    let mut b = DocIdsBuilder::new(String::from("sink"));
    b.insert(1);
    let (_, sink) = b.into_bytes();
    assert_eq!(sink, "sink");
}

#[test]
fn extreme_identifiers() {
    let mut b = DocIdsBuilder::new(());
    b.insert(u64::MAX);
    b.insert(0);
    let (bytes, _) = b.into_bytes();
    assert_eq!(bytes, region(&[0, u64::MAX]));
    let set = DocIds::from_bytes(bytes).unwrap();
    assert!(set.contains(0));
    assert!(set.contains(u64::MAX));
    assert!(!set.contains(1));
}

#[test]
fn unaligned_buffer_is_refused() {
    assert_eq!(
        DocIds::from_bytes(vec![1, 2, 3, 4, 5]).err(),
        Some(DocIdsError::UnalignedLength(5))
    );
    assert_eq!(
        DocIds::from_bytes(vec![0; 17]).err(),
        Some(DocIdsError::UnalignedLength(17))
    );
}

#[test]
fn from_document_ids_stores_native_layout() {
    let set = DocIds::from_document_ids(vec![1, 5, 0x0102030405060708]);
    assert_eq!(set.as_bytes(), &region(&[1, 5, 0x0102030405060708])[..]);
    assert_eq!(set.doc_ids(), vec![1, 5, 0x0102030405060708]);
    assert!(set.contains(5));
    assert!(set.contains(0x0102030405060708));
    assert!(!set.contains(4));
}

#[test]
fn serialized_form_is_the_region() {
    let bytes = region(&[2, 4, 8]);
    let set = DocIds::from_bytes(bytes.clone()).unwrap();
    assert_eq!(set.as_bytes(), &bytes[..]);
}

#[test]
fn search_ignores_trailing_partial_slot() {
    let mut bytes = region(&[3, 9]);
    bytes.push(0xaa);
    assert!(search_ids(&bytes, 3));
    assert!(search_ids(&bytes, 9));
    assert!(!search_ids(&bytes, 4));
    assert!(!search_ids(&[], 0));
}

#[test]
fn region_length_check() {
    assert_eq!(check_region_len(0), Ok(()));
    assert_eq!(check_region_len(24), Ok(()));
    assert_eq!(check_region_len(7), Err(DocIdsError::UnalignedLength(7)));
    assert_eq!(check_region_len(25), Err(DocIdsError::UnalignedLength(25)));
}

#[test]
fn decode_all_reads_slots_in_order() {
    let mut bytes = region(&[9, 2, 0x0102030405060708]);
    assert_eq!(decode_all(&bytes), vec![9, 2, 0x0102030405060708]);
    bytes.extend_from_slice(&[1, 2, 3]);
    assert_eq!(decode_all(&bytes), vec![9, 2, 0x0102030405060708]);
    assert!(decode_all(&[]).is_empty());
}
