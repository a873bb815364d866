use fum::{
    batch_dir_name, batch_proof, batch_root, check_download, combined_hash, compute_sha256,
    digest, get_proof, proof_round_trip, root_hash, verify_proof, Digest, FileItem, FumError,
};

fn d(byte: u8) -> Digest {
    Digest::from_vec(vec![byte; 32]).unwrap()
}

fn sha(data: &[u8]) -> Digest {
    compute_sha256(data)
}

#[test]
fn sha256_known_vectors() {
    assert_eq!(
        digest(sha(b"").as_bytes()),
        "e3b0c44298fc1c149afbf4c8996fb92427ae41e4649b934ca495991b7852b855"
    );
    assert_eq!(
        digest(sha(b"abc").as_bytes()),
        "ba7816bf8f01cfea414140de5dae2223b00361a396177a9cb410ff61f20015ad"
    );
}

#[test]
fn digest_from_vec_size_mismatch() {
    assert!(matches!(Digest::from_vec(vec![1u8; 31]), Err(FumError::SizeMismatch)));
    assert!(matches!(Digest::from_vec(vec![1u8; 33]), Err(FumError::SizeMismatch)));
    let ok = Digest::from_vec(vec![7u8; 32]).unwrap();
    assert_eq!(ok.as_bytes(), &vec![7u8; 32]);
}

#[test]
fn combine_is_commutative() {
    let a = sha(b"left");
    let b = sha(b"right");
    let ab = combined_hash(&a, &b);
    let ba = combined_hash(&b, &a);
    assert!(ab.eq_digest(&ba));
    let aa = combined_hash(&a, &a);
    assert!(aa.eq_digest(&combined_hash(&a, &a)));
}

#[test]
fn root_invariant_under_permutation() {
    let leaves = vec![sha(b"one"), sha(b"two"), sha(b"three"), sha(b"four"), sha(b"five")];
    let root = root_hash(&leaves).unwrap();
    let permuted = vec![
        leaves[3].dup(),
        leaves[0].dup(),
        leaves[4].dup(),
        leaves[2].dup(),
        leaves[1].dup(),
    ];
    let root2 = root_hash(&permuted).unwrap();
    assert!(root.eq_digest(&root2));
}

#[test]
fn root_of_empty_set_is_error() {
    let leaves: Vec<Digest> = Vec::new();
    assert!(matches!(root_hash(&leaves), Err(FumError::EmptyInput)));
}

#[test]
fn root_of_single_leaf_is_the_leaf() {
    let leaf = sha(b"solo");
    let root = root_hash(&vec![leaf.dup()]).unwrap();
    assert!(root.eq_digest(&leaf));
}

#[test]
fn three_leaf_fold_carries_odd_tail() {
    // d1 < d2 < d3 ascending by construction.
    let d1 = d(1);
    let d2 = d(2);
    let d3 = d(3);
    let c1 = combined_hash(&d1, &d2);
    let expected = combined_hash(&c1, &d3);
    let root = root_hash(&vec![d3.dup(), d1.dup(), d2.dup()]).unwrap();
    assert!(root.eq_digest(&expected));
    let root2 = root_hash(&vec![d2.dup(), d3.dup(), d1.dup()]).unwrap();
    assert!(root2.eq_digest(&expected));
}

#[test]
fn every_leaf_verifies_with_its_proof() {
    let leaves = vec![sha(b"a"), sha(b"b"), sha(b"c"), sha(b"d"), sha(b"e"), sha(b"f"), sha(b"g")];
    let root = root_hash(&leaves).unwrap();
    for leaf in leaves.iter() {
        let proof = get_proof(&leaves, leaf).unwrap();
        assert!(verify_proof(&proof, &root, leaf));
        assert!(proof_round_trip(&leaves, leaf));
    }
}

#[test]
fn proof_for_absent_digest_is_not_found() {
    let leaves = vec![sha(b"a"), sha(b"b"), sha(b"c")];
    let stranger = sha(b"stranger");
    assert!(matches!(get_proof(&leaves, &stranger), Err(FumError::NotFound)));
    let empty: Vec<Digest> = Vec::new();
    assert!(matches!(get_proof(&empty, &stranger), Err(FumError::NotFound)));
}

#[test]
fn verify_rejects_any_tampering() {
    let leaves = vec![sha(b"a"), sha(b"b"), sha(b"c"), sha(b"d"), sha(b"e")];
    let root = root_hash(&leaves).unwrap();
    let leaf = leaves[2].dup();
    let proof = get_proof(&leaves, &leaf).unwrap();
    assert!(verify_proof(&proof, &root, &leaf));

    // A single flipped byte in the leaf.
    let mut bad_leaf = leaf.as_bytes().clone();
    bad_leaf[0] ^= 0x01;
    let bad_leaf = Digest::from_vec(bad_leaf).unwrap();
    assert!(!verify_proof(&proof, &root, &bad_leaf));

    // A single flipped byte in a proof entry.
    let mut bad_entry = proof[0].as_bytes().clone();
    bad_entry[31] ^= 0x80;
    let mut bad_proof: Vec<Digest> = proof.iter().map(|p| p.dup()).collect();
    bad_proof[0] = Digest::from_vec(bad_entry).unwrap();
    assert!(!verify_proof(&bad_proof, &root, &leaf));

    // A single flipped byte in the claimed root.
    let mut bad_root = root.as_bytes().clone();
    bad_root[16] ^= 0x10;
    let bad_root = Digest::from_vec(bad_root).unwrap();
    assert!(!verify_proof(&proof, &bad_root, &leaf));
}

fn batch() -> Vec<FileItem> {
    vec![
        FileItem { file_name: "alpha.txt".to_string(), bytes: b"first body".to_vec() },
        FileItem { file_name: "beta.txt".to_string(), bytes: b"second body".to_vec() },
        FileItem { file_name: "gamma.txt".to_string(), bytes: b"third body".to_vec() },
        FileItem { file_name: "delta.txt".to_string(), bytes: b"fourth body".to_vec() },
    ]
}

#[test]
fn batch_dir_name_is_hex_of_leaf_root() {
    let items = batch();
    let leaves: Vec<Digest> = items.iter().map(|f| compute_sha256(&f.bytes)).collect();
    let expected = digest(root_hash(&leaves).unwrap().as_bytes());
    assert_eq!(batch_dir_name(&items).unwrap(), expected);
    assert_eq!(expected.len(), 64);
    let empty: Vec<FileItem> = Vec::new();
    assert!(matches!(batch_dir_name(&empty), Err(FumError::EmptyInput)));
}

#[test]
fn downloaded_file_verifies_and_tampered_file_fails() {
    let items = batch();
    let anchor = batch_root(&items).unwrap();
    let content = items[1].bytes.clone();
    let proof = batch_proof(&items, &content).unwrap();
    assert!(check_download(&content, &proof, &anchor));

    // Flip one bit of the received content before verifying.
    let mut tampered = content.clone();
    tampered[3] ^= 0x04;
    assert!(!check_download(&tampered, &proof, &anchor));
}

#[test]
fn proof_for_deleted_file_is_not_found() {
    let items = batch();
    let missing = b"a file that was never uploaded".to_vec();
    assert!(matches!(batch_proof(&items, &missing), Err(FumError::NotFound)));
}

#[test]
fn proof_entries_follow_the_level_scan() {
    // d1 < d2 < d3 ascending by construction.
    let d1 = d(1);
    let d2 = d(2);
    let d3 = d(3);
    let leaves = vec![d3.dup(), d1.dup(), d2.dup()];

    // d3 is the unmatched tail of the first level: it contributes no
    // entry there, so the proof has one entry, not two.
    let p3 = get_proof(&leaves, &d3).unwrap();
    assert_eq!(p3.len(), 1);
    assert!(p3[0].eq_digest(&combined_hash(&d1, &d2)));

    // d1 pairs with d2, and their combination pairs with the carried d3.
    let p1 = get_proof(&leaves, &d1).unwrap();
    assert_eq!(p1.len(), 2);
    assert!(p1[0].eq_digest(&d2));
    assert!(p1[1].eq_digest(&d3));

    // d2's sibling in the first pair is d1.
    let p2 = get_proof(&leaves, &d2).unwrap();
    assert_eq!(p2.len(), 2);
    assert!(p2[0].eq_digest(&d1));
    assert!(p2[1].eq_digest(&d3));
}

#[test]
fn one_leaf_set_has_the_empty_proof() {
    let leaf = d(9);
    let leaves = vec![leaf.dup()];
    let p = get_proof(&leaves, &leaf).unwrap();
    assert!(p.is_empty());
    let root = root_hash(&leaves).unwrap();
    assert!(verify_proof(&p, &root, &leaf));
}

#[test]
fn proof_is_shorter_than_the_leaf_set() {
    let mut leaves: Vec<Digest> = Vec::new();
    for i in 0..6u8 {
        leaves.push(sha(&[i]));
    }
    for leaf in leaves.iter() {
        let p = get_proof(&leaves, leaf).unwrap();
        assert!(p.len() < leaves.len());
        // Six leaves fold in three levels, so no proof exceeds three entries.
        assert!(p.len() <= 3);
    }
}
