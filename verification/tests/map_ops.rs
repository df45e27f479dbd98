use proof_map::digest::{TAG_EMPTY, TAG_LEAF};
use proof_map::host::{describe_java_exception, get_and_clear_java_exception, HostException};
use proof_map::index::{MapError, ProofMapIndex, Regime};
use proof_map::view::{Address, StorageView};
use sha2::Digest;

fn key(last: u8) -> Vec<u8> {
    let mut v = vec![0u8; 31];
    v.push(last);
    v
}

fn sha(data: &[u8]) -> Vec<u8> {
    sha2::Sha256::digest(data).to_vec()
}

#[test]
fn empty_map_hash_is_sentinel() {
    let m = ProofMapIndex::new(Regime::Raw);
    assert_eq!(m.object_hash(), sha(&[TAG_EMPTY]));
    let h = ProofMapIndex::new(Regime::Hashed);
    assert_eq!(h.object_hash(), sha(&[TAG_EMPTY]));
}

#[test]
fn single_put_get_contains() {
    let mut m = ProofMapIndex::new(Regime::Raw);
    let k = key(0);
    let v = vec![0xABu8];
    m.put(&k, &v).unwrap();
    assert_eq!(m.get(&k).unwrap(), Some(vec![0xABu8]));
    assert!(m.contains(&k).unwrap());
    assert!(!m.contains(&key(1)).unwrap());
    assert_eq!(m.get(&key(1)).unwrap(), None);
}

#[test]
fn single_leaf_hash_formula() {
    let mut m = ProofMapIndex::new(Regime::Raw);
    let k = key(7);
    let v = vec![1u8, 2, 3];
    m.put(&k, &v).unwrap();
    // H(leaf) = sha256(tag_leaf || path bytes || sha256(payload))
    let mut buf = vec![TAG_LEAF];
    buf.extend_from_slice(&k);
    buf.extend_from_slice(&sha(&v));
    assert_eq!(m.object_hash(), sha(&buf));
}

#[test]
fn insertion_order_independence() {
    let entries = [
        (key(1), vec![10u8]),
        (key(2), vec![20u8]),
        (key(0x81), vec![30u8]),
    ];
    let mut a = ProofMapIndex::new(Regime::Raw);
    for (k, v) in entries.iter() {
        a.put(k, v).unwrap();
    }
    let mut b = ProofMapIndex::new(Regime::Raw);
    for (k, v) in entries.iter().rev() {
        b.put(k, v).unwrap();
    }
    assert_eq!(a.object_hash(), b.object_hash());
}

#[test]
fn insertion_order_independence_hashed() {
    let mut a = ProofMapIndex::new(Regime::Hashed);
    a.put(&b"alpha".to_vec(), &vec![1]).unwrap();
    a.put(&b"beta".to_vec(), &vec![2]).unwrap();
    a.put(&b"gamma".to_vec(), &vec![3]).unwrap();
    let mut b = ProofMapIndex::new(Regime::Hashed);
    b.put(&b"gamma".to_vec(), &vec![3]).unwrap();
    b.put(&b"alpha".to_vec(), &vec![1]).unwrap();
    b.put(&b"beta".to_vec(), &vec![2]).unwrap();
    assert_eq!(a.object_hash(), b.object_hash());
}

#[test]
fn remove_to_empty_restores_sentinel() {
    let mut m = ProofMapIndex::new(Regime::Raw);
    let empty_hash = m.object_hash();
    m.put(&key(9), &vec![9u8]).unwrap();
    assert_ne!(m.object_hash(), empty_hash);
    m.remove(&key(9)).unwrap();
    assert_eq!(m.object_hash(), empty_hash);
    assert_eq!(m.get(&key(9)).unwrap(), None);
}

#[test]
fn put_remove_restores_previous_digest() {
    let mut m = ProofMapIndex::new(Regime::Raw);
    m.put(&key(1), &vec![1u8]).unwrap();
    m.put(&key(2), &vec![2u8]).unwrap();
    let before = m.object_hash();
    m.put(&key(3), &vec![3u8]).unwrap();
    m.remove(&key(3)).unwrap();
    assert_eq!(m.object_hash(), before);
    assert_eq!(m.get(&key(3)).unwrap(), None);
}

#[test]
fn remove_absent_key_is_noop() {
    let mut m = ProofMapIndex::new(Regime::Raw);
    m.put(&key(1), &vec![1u8]).unwrap();
    let before = m.object_hash();
    m.remove(&key(250)).unwrap();
    assert_eq!(m.object_hash(), before);
}

#[test]
fn reinsert_same_entry_keeps_digest() {
    let mut m = ProofMapIndex::new(Regime::Raw);
    m.put(&key(1), &vec![1u8]).unwrap();
    m.put(&key(2), &vec![2u8]).unwrap();
    let before = m.object_hash();
    m.put(&key(2), &vec![2u8]).unwrap();
    assert_eq!(m.object_hash(), before);
}

#[test]
fn overwrite_changes_digest_and_value() {
    let mut m = ProofMapIndex::new(Regime::Raw);
    m.put(&key(1), &vec![1u8]).unwrap();
    let before = m.object_hash();
    m.put(&key(1), &vec![99u8]).unwrap();
    assert_ne!(m.object_hash(), before);
    assert_eq!(m.get(&key(1)).unwrap(), Some(vec![99u8]));
}

#[test]
fn clear_then_ops_match_fresh_map() {
    let mut m = ProofMapIndex::new(Regime::Raw);
    m.put(&key(1), &vec![1u8]).unwrap();
    m.put(&key(2), &vec![2u8]).unwrap();
    m.clear();
    m.put(&key(5), &vec![5u8]).unwrap();
    m.remove(&key(7)).unwrap();
    let mut fresh = ProofMapIndex::new(Regime::Raw);
    fresh.put(&key(5), &vec![5u8]).unwrap();
    fresh.remove(&key(7)).unwrap();
    assert_eq!(m.object_hash(), fresh.object_hash());
}

#[test]
fn iteration_ascending_and_complete() {
    let mut m = ProofMapIndex::new(Regime::Raw);
    m.put(&key(3), &vec![33u8]).unwrap();
    m.put(&key(1), &vec![11u8]).unwrap();
    m.put(&key(2), &vec![22u8]).unwrap();
    let entries = m.entries();
    assert_eq!(
        entries,
        vec![
            (key(1), vec![11u8]),
            (key(2), vec![22u8]),
            (key(3), vec![33u8]),
        ]
    );
    assert_eq!(m.keys(), vec![key(1), key(2), key(3)]);
    assert_eq!(m.values(), vec![vec![11u8], vec![22u8], vec![33u8]]);
}

#[test]
fn iteration_from_positions_at_first_not_below() {
    let mut m = ProofMapIndex::new(Regime::Raw);
    m.put(&key(1), &vec![11u8]).unwrap();
    m.put(&key(3), &vec![33u8]).unwrap();
    m.put(&key(5), &vec![55u8]).unwrap();
    // from an absent key between stored ones
    let tail = m.entries_from(&key(2)).unwrap();
    assert_eq!(tail, vec![(key(3), vec![33u8]), (key(5), vec![55u8])]);
    // from a stored key: inclusive
    let tail = m.entries_from(&key(3)).unwrap();
    assert_eq!(tail, vec![(key(3), vec![33u8]), (key(5), vec![55u8])]);
    assert_eq!(m.keys_from(&key(4)).unwrap(), vec![key(5)]);
    assert_eq!(m.values_from(&key(6)).unwrap(), Vec::<Vec<u8>>::new());
}

#[test]
fn hashed_regime_arbitrary_keys() {
    let mut m = ProofMapIndex::new(Regime::Hashed);
    m.put(&b"a-rather-long-key".to_vec(), &vec![1]).unwrap();
    m.put(&Vec::new(), &vec![2]).unwrap();
    assert_eq!(m.get(&b"a-rather-long-key".to_vec()).unwrap(), Some(vec![1]));
    assert_eq!(m.get(&Vec::new()).unwrap(), Some(vec![2]));
    assert_eq!(m.get(&b"other".to_vec()).unwrap(), None);
    let keys = m.keys();
    assert_eq!(keys.len(), 2);
    assert!(keys.contains(&b"a-rather-long-key".to_vec()));
    assert!(keys.contains(&Vec::new()));
}

#[test]
fn raw_regime_rejects_malformed_keys() {
    let mut m = ProofMapIndex::new(Regime::Raw);
    let short = vec![0u8; 31];
    let long = vec![0u8; 33];
    assert_eq!(m.get(&short), Err(MapError::InvalidKeyLength));
    assert_eq!(m.contains(&long), Err(MapError::InvalidKeyLength));
    assert_eq!(m.put(&short, &vec![1]), Err(MapError::InvalidKeyLength));
    assert_eq!(m.remove(&long), Err(MapError::InvalidKeyLength));
    assert_eq!(m.entries_from(&short), Err(MapError::InvalidKeyLength));
    assert_eq!(m.get_proof(&short).err(), Some(MapError::InvalidKeyLength));
}

#[test]
fn view_routes_to_named_maps() {
    let mut fork = StorageView::new_fork();
    let addr_a = Address { name: String::from("tokens"), sub_id: None };
    let addr_b = Address { name: String::from("tokens"), sub_id: Some(vec![1u8]) };
    fork.create_map(Address { name: String::from("tokens"), sub_id: None }, Regime::Raw).unwrap();
    fork.create_map(
        Address { name: String::from("tokens"), sub_id: Some(vec![1u8]) },
        Regime::Raw,
    )
        .unwrap();
    fork.put(&addr_a, &key(1), &vec![1]).unwrap();
    fork.put(&addr_b, &key(1), &vec![2]).unwrap();
    assert_eq!(fork.get(&addr_a, &key(1)).unwrap(), Some(vec![1]));
    assert_eq!(fork.get(&addr_b, &key(1)).unwrap(), Some(vec![2]));
    // the digest matches a standalone map with the same contents
    let mut standalone = ProofMapIndex::new(Regime::Raw);
    standalone.put(&key(1), &vec![1]).unwrap();
    assert_eq!(fork.object_hash(&addr_a), standalone.object_hash());
    assert_eq!(fork.entries(&addr_a), vec![(key(1), vec![1u8])]);
}

#[test]
fn two_handles_same_address_share_writes() {
    let mut fork = StorageView::new_fork();
    let addr = Address { name: String::from("shared"), sub_id: None };
    let again = Address { name: String::from("shared"), sub_id: None };
    fork.create_map(Address { name: String::from("shared"), sub_id: None }, Regime::Raw).unwrap();
    // creating the same address again keeps the map
    fork.create_map(Address { name: String::from("shared"), sub_id: None }, Regime::Raw).unwrap();
    fork.put(&addr, &key(1), &vec![7]).unwrap();
    assert_eq!(fork.get(&again, &key(1)).unwrap(), Some(vec![7]));
}

#[test]
fn snapshot_refuses_mutation() {
    let mut fork = StorageView::new_fork();
    let addr = Address { name: String::from("m"), sub_id: None };
    fork.create_map(Address { name: String::from("m"), sub_id: None }, Regime::Raw).unwrap();
    fork.put(&addr, &key(1), &vec![1]).unwrap();
    let mut snap = fork.freeze();
    assert_eq!(snap.put(&addr, &key(2), &vec![2]), Err(MapError::MutationOnSnapshot));
    assert_eq!(snap.remove(&addr, &key(1)), Err(MapError::MutationOnSnapshot));
    assert_eq!(
        snap.create_map(Address { name: String::from("n"), sub_id: None }, Regime::Raw),
        Err(MapError::MutationOnSnapshot),
    );
    // reads still work and see the fork's writes
    assert_eq!(snap.get(&addr, &key(1)).unwrap(), Some(vec![1]));
}

#[test]
fn unknown_address_is_reported() {
    let mut fork = StorageView::new_fork();
    let addr = Address { name: String::from("missing"), sub_id: None };
    assert_eq!(fork.put(&addr, &key(1), &vec![1]), Err(MapError::UnknownAddress));
    assert_eq!(fork.remove(&addr, &key(1)), Err(MapError::UnknownAddress));
    // reads of an unknown address behave as an empty map
    assert_eq!(fork.get(&addr, &key(1)).unwrap(), None);
    assert_eq!(fork.object_hash(&addr), sha(&[TAG_EMPTY]));
    assert_eq!(fork.entries(&addr), Vec::<(Vec<u8>, Vec<u8>)>::new());
}

#[test]
fn host_exception_take_and_describe() {
    let mut pending = Some(HostException {
        class_name: String::from("java.lang.IllegalStateException"),
        message: Some(String::from("boom")),
    });
    let e = get_and_clear_java_exception(&mut pending);
    assert!(pending.is_none());
    assert_eq!(
        describe_java_exception(&e),
        String::from("Java exception: java.lang.IllegalStateException; boom"),
    );
    let quiet = HostException { class_name: String::from("java.lang.Error"), message: None };
    assert_eq!(describe_java_exception(&quiet), String::from("Java exception: java.lang.Error; "));
}

#[test]
fn empty_map_iteration_is_empty() {
    let m = ProofMapIndex::new(Regime::Raw);
    assert_eq!(m.entries(), Vec::<(Vec<u8>, Vec<u8>)>::new());
    assert_eq!(m.keys(), Vec::<Vec<u8>>::new());
    assert_eq!(m.values(), Vec::<Vec<u8>>::new());
    assert_eq!(m.entries_from(&key(0)).unwrap(), Vec::<(Vec<u8>, Vec<u8>)>::new());
}

#[test]
fn freeze_keeps_contents_and_digest() {
    let mut fork = StorageView::new_fork();
    let addr = Address { name: String::from("ledger"), sub_id: None };
    fork.create_map(Address { name: String::from("ledger"), sub_id: None }, Regime::Raw).unwrap();
    fork.put(&addr, &key(4), &vec![4]).unwrap();
    let digest = fork.object_hash(&addr);
    let snap = fork.freeze();
    assert_eq!(snap.object_hash(&addr), digest);
    assert_eq!(snap.entries(&addr), vec![(key(4), vec![4u8])]);
}

#[test]
fn view_clear_resets_addressed_map() {
    let mut fork = StorageView::new_fork();
    let addr = Address { name: String::from("ledger"), sub_id: None };
    fork.create_map(Address { name: String::from("ledger"), sub_id: None }, Regime::Raw).unwrap();
    fork.put(&addr, &key(1), &vec![1]).unwrap();
    fork.clear(&addr).unwrap();
    assert_eq!(fork.get(&addr, &key(1)).unwrap(), None);
    assert_eq!(fork.object_hash(&addr), sha(&[TAG_EMPTY]));
    // clearing through a snapshot or at an unknown address is refused
    let missing = Address { name: String::from("nowhere"), sub_id: None };
    assert_eq!(fork.clear(&missing), Err(MapError::UnknownAddress));
    let mut snap = fork.freeze();
    assert_eq!(snap.clear(&addr), Err(MapError::MutationOnSnapshot));
}

#[test]
fn view_iteration_from_key() {
    let mut fork = StorageView::new_fork();
    let addr = Address { name: String::from("ledger"), sub_id: None };
    fork.create_map(Address { name: String::from("ledger"), sub_id: None }, Regime::Raw).unwrap();
    fork.put(&addr, &key(1), &vec![1]).unwrap();
    fork.put(&addr, &key(3), &vec![3]).unwrap();
    assert_eq!(fork.entries_from(&addr, &key(2)).unwrap(), vec![(key(3), vec![3u8])]);
    let missing = Address { name: String::from("nowhere"), sub_id: None };
    assert_eq!(fork.entries_from(&missing, &key(0)).unwrap(), Vec::<(Vec<u8>, Vec<u8>)>::new());
}
