use trie_proof::builder::BuildError;
use trie_proof::builder::TrieBuilder;
use trie_proof::records::compact_u32;
use trie_proof::records::compact_u64_decode;
use trie_proof::records::decode_timestamp_extrinsic;
use trie_proof::store::NodeStore;
use trie_proof::trie::build;
use trie_proof::trie::Trie;
use trie_proof::verify::verify;
use trie_proof::verify::lookup;
use trie_proof::verify::VerifyError;

fn rec(k: &[u8], v: &[u8]) -> (Vec<u8>, Vec<u8>) {
    (k.to_vec(), v.to_vec())
}

fn three_records() -> Vec<(Vec<u8>, Vec<u8>)> {
    vec![
        (compact_u32(0), b"alpha".to_vec()),
        (compact_u32(1), b"beta".to_vec()),
        (compact_u32(2), b"gamma".to_vec()),
    ]
}

#[test]
fn empty_root_canonical() {
    let t1 = build(vec![]).unwrap();
    let t2 = build(vec![]).unwrap();
    assert_eq!(t1.root(), t2.root());
    // The root of the empty trie is the Blake2b-256 digest of the empty
    // node's one-byte encoding; recompute it through the hash directly.
    let h = <sp_core::Blake2Hasher as sp_core::Hasher>::hash(&[0u8]);
    assert_eq!(t1.root().as_slice(), h.as_bytes());
}

#[test]
fn scenario_three_records() {
    let t = build(three_records()).unwrap();
    let root = t.root().clone();
    let proof = t.prove(&vec![compact_u32(1)]);

    let ok = verify(
        &root,
        &proof,
        &vec![(compact_u32(1), Some(b"beta".to_vec()))],
    );
    assert_eq!(ok, Ok(()));

    let wrong = verify(
        &root,
        &proof,
        &vec![(compact_u32(1), Some(b"wrong".to_vec()))],
    );
    assert_eq!(wrong, Err(VerifyError::AssertionFailed));

    let missing = verify(
        &root,
        &proof,
        &vec![(compact_u32(2), Some(b"gamma".to_vec()))],
    );
    assert_eq!(missing, Err(VerifyError::IncompleteProof));
}

#[test]
fn root_is_insertion_order_independent() {
    let forward = build(three_records()).unwrap();
    let mut rev = three_records();
    rev.reverse();
    let backward = build(rev).unwrap();
    assert_eq!(forward.root(), backward.root());
}

#[test]
fn duplicate_key_overwrites() {
    let twice = build(vec![rec(b"k", b"first"), rec(b"k", b"second")]).unwrap();
    let once = build(vec![rec(b"k", b"second")]).unwrap();
    assert_eq!(twice.root(), once.root());
}

#[test]
fn presence_and_absence_verify() {
    let t = build(three_records()).unwrap();
    let root = t.root().clone();

    // Present key with its committed value.
    let p1 = t.prove(&vec![compact_u32(0)]);
    let ok = verify(&root, &p1, &vec![(compact_u32(0), Some(b"alpha".to_vec()))]);
    assert_eq!(ok, Ok(()));

    // Absent key: the proof shows the branch slot is empty.
    let absent_key = compact_u32(9);
    let p2 = t.prove(&vec![absent_key.clone()]);
    let ok_absent = verify(&root, &p2, &vec![(absent_key, None)]);
    assert_eq!(ok_absent, Ok(()));
}

#[test]
fn single_byte_mutation_never_verifies() {
    let t = build(three_records()).unwrap();
    let root = t.root().clone();
    let proof = t.prove(&vec![compact_u32(1)]);
    let assertion = vec![(compact_u32(1), Some(b"beta".to_vec()))];
    assert_eq!(verify(&root, &proof, &assertion), Ok(()));

    for node in 0..proof.len() {
        for byte in 0..proof[node].len() {
            let mut tampered = proof.clone();
            tampered[node][byte] = tampered[node][byte].wrapping_add(1);
            let r = verify(&root, &tampered, &assertion);
            assert!(r.is_err(), "mutation at node {} byte {} verified", node, byte);
            if node == 0 {
                // The proof is emitted root node first: corrupting it
                // leaves nothing hashing to the claimed root.
                assert_eq!(r, Err(VerifyError::RootMismatch));
            }
        }
    }
}

#[test]
fn removing_a_needed_node_is_incomplete() {
    let t = build(three_records()).unwrap();
    let root = t.root().clone();
    let keys = vec![compact_u32(0), compact_u32(2)];
    let proof = t.prove(&keys);
    let assertions = vec![
        (compact_u32(0), Some(b"alpha".to_vec())),
        (compact_u32(2), Some(b"gamma".to_vec())),
    ];
    assert_eq!(verify(&root, &proof, &assertions), Ok(()));
    assert!(proof.len() >= 3);

    for node in 0..proof.len() {
        let mut thinned = proof.clone();
        thinned.remove(node);
        let r = verify(&root, &thinned, &assertions);
        if node == 0 {
            assert_eq!(r, Err(VerifyError::RootMismatch));
        } else {
            assert_eq!(r, Err(VerifyError::IncompleteProof));
        }
    }
}

#[test]
fn proof_has_no_duplicate_nodes() {
    let t = build(three_records()).unwrap();
    let keys = vec![compact_u32(0), compact_u32(1), compact_u32(2)];
    let proof = t.prove(&keys);
    for i in 0..proof.len() {
        for j in (i + 1)..proof.len() {
            assert_ne!(proof[i], proof[j]);
        }
    }
}

#[test]
fn lookup_through_proof() {
    let t = build(three_records()).unwrap();
    let root = t.root().clone();
    let proof = t.prove(&vec![compact_u32(1)]);
    assert_eq!(lookup(&root, &proof, &compact_u32(1)), Ok(Some(b"beta".to_vec())));

    let absent_key = compact_u32(7);
    let p2 = t.prove(&vec![absent_key.clone()]);
    assert_eq!(lookup(&root, &p2, &absent_key), Ok(None));

    let bogus_root = vec![0u8; 32];
    assert_eq!(lookup(&bogus_root, &proof, &compact_u32(1)), Err(VerifyError::RootMismatch));
}

#[test]
fn empty_key_and_value_rejected() {
    match build(vec![rec(b"", b"")]) {
        Err(e) => assert_eq!(e, BuildError::EmptyEntry),
        Ok(_) => panic!("empty key and value accepted"),
    }
    let mut b = TrieBuilder::new();
    assert_eq!(b.insert(Vec::new(), Vec::new()), Err(BuildError::EmptyEntry));
    assert_eq!(b.insert(Vec::new(), b"v".to_vec()), Ok(()));
    assert_eq!(b.insert(b"k".to_vec(), Vec::new()), Ok(()));
}

#[test]
fn builder_matches_batch_build() {
    let mut b = TrieBuilder::new();
    for (k, v) in three_records() {
        b.insert(k, v).unwrap();
    }
    let t1 = Trie::from_builder(b);
    let t2 = build(three_records()).unwrap();
    assert_eq!(t1.root(), t2.root());
}

#[test]
fn store_put_and_get() {
    let mut s = NodeStore::new();
    let d1 = s.put(b"node-one".to_vec());
    let d2 = s.put(b"node-one".to_vec());
    assert_eq!(d1, d2);
    assert_eq!(d1.len(), 32);
    let d3 = s.put(b"node-two".to_vec());
    assert_ne!(d1, d3);
    assert_eq!(s.get(&d1), Ok(&b"node-one".to_vec()));
    assert_eq!(s.get(&d3), Ok(&b"node-two".to_vec()));
    let unknown = vec![0u8; 32];
    assert_eq!(s.get(&unknown), Err(trie_proof::store::StoreError::NotFound));
}

#[test]
fn compact_encoding_values() {
    assert_eq!(compact_u32(0), vec![0]);
    assert_eq!(compact_u32(1), vec![4]);
    assert_eq!(compact_u32(2), vec![8]);
    assert_eq!(compact_u32(63), vec![252]);
    assert_eq!(compact_u32(64), vec![1, 1]);
    assert_eq!(compact_u32(16383), vec![253, 255]);
    assert_eq!(compact_u32(16384), vec![2, 0, 1, 0]);
    assert_eq!(compact_u32(1073741824), vec![3, 0, 0, 0, 64]);
}

#[test]
fn compact_decoding_values() {
    assert_eq!(compact_u64_decode(&vec![0]), Some((0, 1)));
    assert_eq!(compact_u64_decode(&vec![4]), Some((1, 1)));
    assert_eq!(compact_u64_decode(&vec![1, 1]), Some((64, 2)));
    assert_eq!(compact_u64_decode(&vec![2, 0, 1, 0]), Some((16384, 4)));
    assert_eq!(compact_u64_decode(&vec![3, 0, 0, 0, 64]), Some((1073741824, 5)));
    assert_eq!(compact_u64_decode(&Vec::new()), None);
    assert_eq!(compact_u64_decode(&vec![1]), None);
}

#[test]
fn timestamp_extracted_from_first_record() {
    let ts: u64 = 1_600_000_000_000;
    // Record layout: two envelope bytes, two call-selector bytes, then
    // the compact integer (big form, six little-endian bytes).
    let mut payload = vec![0u8, 0, 1, 0];
    payload.push(((6 - 4) << 2) | 3);
    for i in 0..6 {
        payload.push(((ts >> (8 * i)) & 0xff) as u8);
    }
    let records = vec![
        (compact_u32(0), payload),
        (compact_u32(1), b"other".to_vec()),
    ];
    let t = build(records).unwrap();
    let root = t.root().clone();
    let proof = t.prove(&vec![compact_u32(0)]);
    assert_eq!(decode_timestamp_extrinsic(&proof, &root), Some(ts));

    // A proof for another key cannot resolve the first record.
    let other = t.prove(&vec![compact_u32(1)]);
    assert_eq!(decode_timestamp_extrinsic(&other, &root), None);
}
