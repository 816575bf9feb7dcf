use ihi::keyring::{inclusion_proof, kind, leaf, merkle_root, verify_inclusion, KEYRING_DEPTH};

fn fleet(n: usize) -> Vec<[u8; 32]> {
    // Distinct leaves derived like the real path: spaghettify over a per-device secret.
    (0..n)
        .map(|i| {
            let mut secret = [0u8; 32];
            secret[0] = i as u8;
            secret[1] = (i >> 8) as u8;
            leaf(kind::DEVICE, &secret, &[7u8; 32])
        })
        .collect()
}

#[test]
fn root_is_constant_size_regardless_of_fleet() {
    let r1 = merkle_root(&fleet(1));
    let r1000 = merkle_root(&fleet(1000));
    assert_eq!(r1.len(), 32);
    assert_eq!(r1000.len(), 32);
    assert_ne!(r1, r1000);
}

#[test]
fn every_member_proves_inclusion() {
    let leaves = fleet(37);
    let root = merkle_root(&leaves);
    for (i, lv) in leaves.iter().enumerate() {
        let proof = inclusion_proof(&leaves, i);
        assert_eq!(proof.len(), KEYRING_DEPTH, "proof length is fixed, never hints at N");
        assert!(verify_inclusion(lv, i, &proof, &root), "member {} must verify", i);
    }
}

#[test]
fn non_member_and_wrong_index_fail() {
    let leaves = fleet(8);
    let root = merkle_root(&leaves);
    let outsider = leaf(kind::DEVICE, &[0xFF; 32], &[7u8; 32]);
    let proof0 = inclusion_proof(&leaves, 0);
    assert!(!verify_inclusion(&outsider, 0, &proof0, &root));
    assert!(!verify_inclusion(&leaves[3], 4, &inclusion_proof(&leaves, 3), &root));
}

#[test]
fn revocation_changes_the_root() {
    let mut leaves = fleet(5);
    let root_before = merkle_root(&leaves);
    let removed_leaf = leaves[2];
    let removed_proof = inclusion_proof(&leaves, 2);
    assert!(verify_inclusion(&removed_leaf, 2, &removed_proof, &root_before));
    leaves.remove(2);
    let root_after = merkle_root(&leaves);
    assert_ne!(root_before, root_after);
    assert!(
        !verify_inclusion(&removed_leaf, 2, &removed_proof, &root_after),
        "a removed device's old proof must fail against the new root"
    );
}

#[test]
fn kind_tag_prevents_cross_use() {
    let secret = [9u8; 32];
    let seed = [7u8; 32];
    assert_ne!(leaf(kind::DEVICE, &secret, &seed), leaf(kind::AVATAR, &secret, &seed));
}

#[test]
fn cross_handle_leaves_uncorrelated() {
    let secret = [3u8; 32];
    assert_ne!(leaf(kind::DEVICE, &secret, &[1u8; 32]), leaf(kind::DEVICE, &secret, &[2u8; 32]));
}

// ---------------------------------------------------------------------------

fn leaf_hash(v: &[u8; 32]) -> [u8; 32] {
    let mut h = blake3::Hasher::new();
    h.update(&[0x00]);
    h.update(v);
    *h.finalize().as_bytes()
}

fn node_hash(l: &[u8; 32], r: &[u8; 32]) -> [u8; 32] {
    let mut h = blake3::Hasher::new();
    h.update(&[0x01]);
    h.update(l);
    h.update(r);
    *h.finalize().as_bytes()
}

fn zero_hash(level: usize) -> [u8; 32] {
    let mut z = leaf_hash(&[0u8; 32]);
    for _ in 0..level {
        z = node_hash(&z, &z);
    }
    z
}

#[test]
fn empty_fleet_root_is_the_empty_tree_hash() {
    assert_eq!(merkle_root(&[]), zero_hash(KEYRING_DEPTH));
}

#[test]
fn single_leaf_root_folds_with_empty_siblings() {
    let leaves = fleet(1);
    let mut acc = leaf_hash(&leaves[0]);
    for level in 0..KEYRING_DEPTH {
        acc = node_hash(&acc, &zero_hash(level));
    }
    assert_eq!(merkle_root(&leaves), acc);
}

#[test]
fn two_leaf_root_pairs_the_leaves() {
    let leaves = fleet(2);
    let mut acc = node_hash(&leaf_hash(&leaves[0]), &leaf_hash(&leaves[1]));
    for level in 1..KEYRING_DEPTH {
        acc = node_hash(&acc, &zero_hash(level));
    }
    assert_eq!(merkle_root(&leaves), acc);
}

#[test]
fn inclusion_proof_siblings() {
    let leaves = fleet(3);
    let proof = inclusion_proof(&leaves, 2);
    assert_eq!(proof[0], zero_hash(0));
    assert_eq!(proof[1], node_hash(&leaf_hash(&leaves[0]), &leaf_hash(&leaves[1])));
    for level in 2..KEYRING_DEPTH {
        assert_eq!(proof[level], zero_hash(level));
    }
    let proof1 = inclusion_proof(&leaves, 1);
    assert_eq!(proof1[0], leaf_hash(&leaves[0]));
}

#[test]
fn empty_fleet_proof_is_all_empty_hashes() {
    let proof = inclusion_proof(&[], 5);
    for level in 0..KEYRING_DEPTH {
        assert_eq!(proof[level], zero_hash(level));
    }
}

#[test]
fn leaf_is_spaghettify_of_tagged_preimage() {
    let secret = [5u8; 32];
    let seed = [6u8; 32];
    let mut pre = vec![kind::BLOB];
    pre.extend_from_slice(&secret);
    pre.extend_from_slice(&seed);
    assert_eq!(leaf(kind::BLOB, &secret, &seed), ihi::spaghettify(&pre));
}

#[test]
fn kind_tags_are_the_letters() {
    assert_eq!(kind::DEVICE, b'd');
    assert_eq!(kind::AVATAR, b'a');
    assert_eq!(kind::BLOB, b'b');
}
