use proof_map::digest::{TAG_BRANCH, TAG_EMPTY, TAG_LEAF};
use proof_map::index::{MapError, ProofMapIndex, Regime};
use proof_map::map_proof::MapProof;
use sha2::Digest;

fn key(last: u8) -> Vec<u8> {
    let mut v = vec![0u8; 31];
    v.push(last);
    v
}

fn sha(data: &[u8]) -> Vec<u8> {
    sha2::Sha256::digest(data).to_vec()
}

fn three_entry_map() -> ProofMapIndex {
    let mut m = ProofMapIndex::new(Regime::Raw);
    m.put(&key(1), &vec![10u8]).unwrap();
    m.put(&key(2), &vec![20u8]).unwrap();
    m.put(&key(0x81), &vec![30u8]).unwrap();
    m
}

#[test]
fn proof_of_presence_verifies() {
    let m = three_entry_map();
    let pf = m.get_proof(&key(2)).unwrap();
    assert_eq!(pf.entries(), &vec![(key(2), Some(vec![20u8]))]);
    assert_eq!(pf.check(Regime::Raw), Some(m.object_hash()));
}

#[test]
fn proof_of_absence_verifies() {
    let m = three_entry_map();
    let absent = key(77);
    let pf = m.get_proof(&absent).unwrap();
    assert_eq!(pf.entries(), &vec![(absent, None)]);
    assert_eq!(pf.check(Regime::Raw), Some(m.object_hash()));
}

#[test]
fn proof_on_empty_map_is_minimal_absence() {
    let m = ProofMapIndex::new(Regime::Raw);
    let pf = m.get_proof(&key(5)).unwrap();
    assert_eq!(pf.entries(), &vec![(key(5), None)]);
    assert_eq!(pf.check(Regime::Raw), Some(sha(&[TAG_EMPTY])));
}

#[test]
fn proof_under_hashed_regime() {
    let mut m = ProofMapIndex::new(Regime::Hashed);
    m.put(&b"present".to_vec(), &vec![42u8]).unwrap();
    m.put(&b"other".to_vec(), &vec![7u8]).unwrap();
    let pf = m.get_proof(&b"present".to_vec()).unwrap();
    assert_eq!(pf.entries(), &vec![(b"present".to_vec(), Some(vec![42u8]))]);
    assert_eq!(pf.check(Regime::Hashed), Some(m.object_hash()));
    let absent = m.get_proof(&b"missing".to_vec()).unwrap();
    assert_eq!(absent.entries(), &vec![(b"missing".to_vec(), None)]);
    assert_eq!(absent.check(Regime::Hashed), Some(m.object_hash()));
}

#[test]
fn proof_checked_under_wrong_regime_fails() {
    let m = three_entry_map();
    let pf = m.get_proof(&key(2)).unwrap();
    // under the hashed regime the key's path is its digest, where the
    // pruned view shows nothing
    assert_eq!(pf.check(Regime::Hashed), None);
}

#[test]
fn multiproof_mixed_presence_and_absence() {
    let m = three_entry_map();
    let keys = vec![key(0x81), key(9), key(1)];
    let pf = m.get_multiproof(&keys).unwrap();
    assert_eq!(pf.check(Regime::Raw), Some(m.object_hash()));
    // entries are sorted by path (= raw key order) and carry the map's answers
    assert_eq!(
        pf.entries(),
        &vec![
            (key(1), Some(vec![10u8])),
            (key(9), None),
            (key(0x81), Some(vec![30u8])),
        ]
    );
}

#[test]
fn multiproof_deduplicates_repeated_keys() {
    let m = three_entry_map();
    let keys = vec![key(2), key(2), key(2)];
    let pf = m.get_multiproof(&keys).unwrap();
    assert_eq!(pf.entries(), &vec![(key(2), Some(vec![20u8]))]);
    assert_eq!(pf.check(Regime::Raw), Some(m.object_hash()));
}

#[test]
fn multiproof_of_everything_and_nothing() {
    let m = three_entry_map();
    let all = m.get_multiproof(&vec![key(1), key(2), key(0x81)]).unwrap();
    assert_eq!(all.check(Regime::Raw), Some(m.object_hash()));
    let none = m.get_multiproof(&Vec::new()).unwrap();
    assert_eq!(none.entries(), &Vec::<(Vec<u8>, Option<Vec<u8>>)>::new());
    assert_eq!(none.check(Regime::Raw), Some(m.object_hash()));
}

#[test]
fn serialised_proof_round_trips() {
    let m = three_entry_map();
    let pf = m.get_multiproof(&vec![key(2), key(9)]).unwrap();
    let bytes = pf.to_bytes();
    let parsed = MapProof::from_bytes(&bytes).unwrap();
    // the parsed proof still verifies to the map's root digest
    assert_eq!(parsed.check(Regime::Raw), Some(m.object_hash()));
    assert_eq!(parsed.entries(), pf.entries());
    // the byte form is canonical: re-encoding gives the same bytes
    assert_eq!(parsed.to_bytes(), bytes);
}

#[test]
fn serialisation_is_deterministic() {
    let a = three_entry_map();
    let mut b = ProofMapIndex::new(Regime::Raw);
    b.put(&key(0x81), &vec![30u8]).unwrap();
    b.put(&key(1), &vec![10u8]).unwrap();
    b.put(&key(2), &vec![20u8]).unwrap();
    // same trie, same requested set given in another order
    let pa = a.get_multiproof(&vec![key(1), key(9)]).unwrap();
    let pb = b.get_multiproof(&vec![key(9), key(1)]).unwrap();
    assert_eq!(pa.to_bytes(), pb.to_bytes());
}

#[test]
fn decoder_rejects_damaged_bytes() {
    let m = three_entry_map();
    let pf = m.get_proof(&key(2)).unwrap();
    let bytes = pf.to_bytes();
    assert!(MapProof::from_bytes(&Vec::new()).is_none());
    assert!(MapProof::from_bytes(&vec![9u8]).is_none());
    let mut truncated = bytes.clone();
    truncated.pop();
    assert!(MapProof::from_bytes(&truncated).is_none());
    let mut trailing = bytes.clone();
    trailing.push(0u8);
    assert!(MapProof::from_bytes(&trailing).is_none());
}

#[test]
fn tampered_proof_fails_verification() {
    let mut m = ProofMapIndex::new(Regime::Raw);
    m.put(&key(1), &vec![10u8]).unwrap();
    m.put(&key(2), &vec![20u8]).unwrap();
    let root = m.object_hash();
    let pf = m.get_proof(&key(1)).unwrap();
    // claim a different payload for the proven key
    let forged = MapProof { root: pf.root, entries: vec![(key(1), Some(vec![99u8]))] };
    match forged.check(Regime::Raw) {
        None => {},
        Some(d) => assert_ne!(d, root),
    }
    // claim the proven key is absent
    let pf2 = m.get_proof(&key(1)).unwrap();
    let forged_absent = MapProof { root: pf2.root, entries: vec![(key(1), None)] };
    match forged_absent.check(Regime::Raw) {
        None => {},
        Some(d) => assert_ne!(d, root),
    }
}

#[test]
fn two_leaves_sharing_long_prefix() {
    // two paths that differ only in their last bit
    let mut k1 = vec![0xEEu8; 31];
    k1.push(0x10);
    let mut k2 = vec![0xEEu8; 31];
    k2.push(0x11);
    let mut a = ProofMapIndex::new(Regime::Raw);
    a.put(&k1, &vec![1u8]).unwrap();
    a.put(&k2, &vec![2u8]).unwrap();
    let mut b = ProofMapIndex::new(Regime::Raw);
    b.put(&k2, &vec![2u8]).unwrap();
    b.put(&k1, &vec![1u8]).unwrap();
    assert_eq!(a.object_hash(), b.object_hash());
    let pf = a.get_proof(&k1).unwrap();
    assert_eq!(pf.check(Regime::Raw), Some(a.object_hash()));
}

#[test]
fn two_leaf_root_digest_formula() {
    // paths sharing their first 255 bits: the root branch splits on one bit
    let mut k1 = vec![0xEEu8; 31];
    k1.push(0x10);
    let mut k2 = vec![0xEEu8; 31];
    k2.push(0x11);
    let mut m = ProofMapIndex::new(Regime::Raw);
    m.put(&k1, &vec![1u8]).unwrap();
    m.put(&k2, &vec![2u8]).unwrap();
    let mut leaf1 = vec![TAG_LEAF];
    leaf1.extend_from_slice(&k1);
    leaf1.extend_from_slice(&sha(&[1u8]));
    let mut leaf2 = vec![TAG_LEAF];
    leaf2.extend_from_slice(&k2);
    leaf2.extend_from_slice(&sha(&[2u8]));
    // each edge: bit count (two bytes, little endian), then the packed bits
    let mut buf = vec![TAG_BRANCH];
    buf.extend_from_slice(&[1u8, 0u8, 0x00u8]);
    buf.extend_from_slice(&sha(&leaf1));
    buf.extend_from_slice(&[1u8, 0u8, 0x80u8]);
    buf.extend_from_slice(&sha(&leaf2));
    assert_eq!(m.object_hash(), sha(&buf));
}

#[test]
fn multiproof_rejects_malformed_key() {
    let m = three_entry_map();
    let keys = vec![key(1), vec![0u8; 31]];
    assert_eq!(m.get_multiproof(&keys).err(), Some(MapError::InvalidKeyLength));
}

#[test]
fn multiproof_under_hashed_regime() {
    let mut m = ProofMapIndex::new(Regime::Hashed);
    m.put(&b"one".to_vec(), &vec![1u8]).unwrap();
    m.put(&b"two".to_vec(), &vec![2u8]).unwrap();
    let pf = m.get_multiproof(&vec![b"two".to_vec(), b"three".to_vec()]).unwrap();
    assert_eq!(pf.check(Regime::Hashed), Some(m.object_hash()));
    let shown: Vec<(Vec<u8>, Option<Vec<u8>>)> = pf.entries().clone();
    assert_eq!(shown.len(), 2);
    assert!(shown.contains(&(b"two".to_vec(), Some(vec![2u8]))));
    assert!(shown.contains(&(b"three".to_vec(), None)));
}

#[test]
fn empty_map_proof_round_trips_through_bytes() {
    let m = ProofMapIndex::new(Regime::Hashed);
    let pf = m.get_proof(&b"anything".to_vec()).unwrap();
    let bytes = pf.to_bytes();
    let parsed = MapProof::from_bytes(&bytes).unwrap();
    assert_eq!(parsed.check(Regime::Hashed), Some(m.object_hash()));
    assert_eq!(parsed.to_bytes(), bytes);
    assert_eq!(parsed.entries(), &vec![(b"anything".to_vec(), None)]);
}
