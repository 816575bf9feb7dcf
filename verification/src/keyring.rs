//! Keyring: the constant-size commitment to the set of devices of one
//! identity.
//!
//! The public credential is one 32-byte Merkle root over the fleet's leaves in
//! a sparse tree of fixed depth [`KEYRING_DEPTH`]; every inclusion proof is
//! exactly [`KEYRING_DEPTH`] sibling nodes, whatever the fleet size. Leaves
//! occupy positions `0..n`; every other position is an empty slot whose
//! subtrees collapse to per-level "zero" hashes.
use vstd::prelude::*;

use crate::hashes::{blake3_bytes, spec_blake3};
use crate::spaghettify::{spaghettify, spec_spaghettify};

pub mod kind;

verus! {

/// Fixed tree depth: `1 << 30` leaf slots.
pub const KEYRING_DEPTH: usize = 30;

/// One node of the tree.
pub type Node = [u8; 32];

/// An inclusion proof: one sibling per level, leaf to root.
pub type InclusionProof = [Node; KEYRING_DEPTH];

/// Domain-separation prefix of a leaf hash.
pub const LEAF_PREFIX: u8 = 0x00;

/// Domain-separation prefix of an interior-node hash.
pub const NODE_PREFIX: u8 = 0x01;

// ---------------------------------------------------------------------------
// Specification
// ---------------------------------------------------------------------------

/// `spaghettify(kind ‖ device_secret ‖ identity_seed)`.
pub open spec fn spec_leaf(kind: u8, device_secret: Seq<u8>, identity_seed: Seq<u8>) -> Seq<u8> {
    spec_spaghettify(seq![kind] + device_secret + identity_seed)
}

/// Position hash of a leaf value: `BLAKE3(0x00 ‖ leaf)`.
pub open spec fn spec_hash_leaf(leaf_value: Seq<u8>) -> Seq<u8> {
    spec_blake3(seq![LEAF_PREFIX] + leaf_value)
}

/// Parent of two children: `BLAKE3(0x01 ‖ left ‖ right)`.
pub open spec fn spec_hash_node(left: Seq<u8>, right: Seq<u8>) -> Seq<u8> {
    spec_blake3(seq![NODE_PREFIX] + left + right)
}

/// Hash of an empty subtree of height `level`: an absent leaf is the leaf
/// hash of 32 zero bytes; an empty subtree one level up joins two empty ones.
pub open spec fn spec_zero(level: nat) -> Seq<u8>
    decreases level,
{
    if level == 0 {
        spec_hash_leaf(Seq::new(32, |i: int| 0u8))
    } else {
        spec_hash_node(spec_zero((level - 1) as nat), spec_zero((level - 1) as nat))
    }
}

/// Node `idx` at height `level` of the tree whose leaf slots `0..leaves.len()`
/// hold `leaves` and whose other slots are empty.
pub open spec fn tree_node(leaves: Seq<[u8; 32]>, level: nat, idx: nat) -> Seq<u8>
    decreases level,
{
    if level == 0 {
        if idx < leaves.len() {
            spec_hash_leaf(leaves[idx as int]@)
        } else {
            spec_zero(0)
        }
    } else {
        spec_hash_node(
            tree_node(leaves, (level - 1) as nat, 2 * idx),
            tree_node(leaves, (level - 1) as nat, 2 * idx + 1),
        )
    }
}

/// The Merkle root over `leaves`.
pub open spec fn spec_merkle_root(leaves: Seq<[u8; 32]>) -> Seq<u8> {
    tree_node(leaves, KEYRING_DEPTH as nat, 0)
}

/// Index at height `level` of the ancestor of leaf slot `index`.
pub open spec fn ancestor(index: nat, level: nat) -> nat
    decreases level,
{
    if level == 0 {
        index
    } else {
        ancestor(index, (level - 1) as nat) / 2
    }
}

/// The other child of the same parent.
pub open spec fn sibling(idx: nat) -> nat {
    if idx % 2 == 0 {
        idx + 1
    } else {
        (idx - 1) as nat
    }
}

/// The inclusion proof for slot `index`: at each height, the sibling of the
/// ancestor of the slot.
pub open spec fn spec_inclusion_proof(leaves: Seq<[u8; 32]>, index: nat) -> Seq<Seq<u8>> {
    Seq::new(
        KEYRING_DEPTH as nat,
        |l: int| tree_node(leaves, l as nat, sibling(ancestor(index, l as nat))),
    )
}

/// Fold `acc` up `level` heights through `proof`, the index bit at each
/// height choosing whether the sibling is on the right or on the left.
pub open spec fn fold_path(acc: Seq<u8>, index: nat, proof: Seq<Seq<u8>>, level: nat) -> Seq<u8>
    decreases level,
{
    if level == 0 {
        acc
    } else {
        let below = fold_path(acc, index, proof, (level - 1) as nat);
        if ancestor(index, (level - 1) as nat) % 2 == 0 {
            spec_hash_node(below, proof[level - 1])
        } else {
            spec_hash_node(proof[level - 1], below)
        }
    }
}

/// Whether `leaf_value` at slot `index` folds up through `proof` to `root`.
pub open spec fn spec_verify_inclusion(
    leaf_value: Seq<u8>,
    index: nat,
    proof: Seq<Seq<u8>>,
    root: Seq<u8>,
) -> bool {
    fold_path(spec_hash_leaf(leaf_value), index, proof, KEYRING_DEPTH as nat) == root
}

/// The views of the nodes of a proof.
pub open spec fn proof_views(proof: Seq<[u8; 32]>) -> Seq<Seq<u8>> {
    proof.map_values(|n: [u8; 32]| n@)
}

// ---------------------------------------------------------------------------
// Implementation
// ---------------------------------------------------------------------------

/// Derive a fleet leaf: `spaghettify(kind ‖ device_secret ‖ identity_seed)`.
pub fn leaf(kind: u8, device_secret: &[u8; 32], identity_seed: &[u8; 32]) -> (r: [u8; 32])
    ensures
        r@ == spec_leaf(kind, device_secret@, identity_seed@),
{
    let mut preimage = [0u8; 65];
    preimage[0] = kind;
    let mut i: usize = 0;
    while i < 32
        invariant
            i <= 32,
            preimage@[0] == kind,
            forall|j: int| 0 <= j < i ==> preimage@[1 + j] == device_secret@[j],
            forall|j: int| 0 <= j < i ==> preimage@[33 + j] == identity_seed@[j],
        decreases 32 - i,
    {
        preimage[1 + i] = device_secret[i];
        preimage[33 + i] = identity_seed[i];
        i = i + 1;
    }
    assert(preimage@ =~= seq![kind] + device_secret@ + identity_seed@);
    spaghettify(preimage.as_slice())
}

/// Position hash of a leaf value, domain-separated from interior nodes.
fn hash_leaf(leaf_value: &[u8; 32]) -> (r: [u8; 32])
    ensures
        r@ == spec_hash_leaf(leaf_value@),
{
    let mut preimage = [0u8; 33];
    preimage[0] = LEAF_PREFIX;
    let mut i: usize = 0;
    while i < 32
        invariant
            i <= 32,
            preimage@[0] == LEAF_PREFIX,
            forall|j: int| 0 <= j < i ==> preimage@[1 + j] == leaf_value@[j],
        decreases 32 - i,
    {
        preimage[1 + i] = leaf_value[i];
        i = i + 1;
    }
    assert(preimage@ =~= seq![LEAF_PREFIX] + leaf_value@);
    blake3_bytes(preimage.as_slice())
}

/// Parent of two children, left then right.
fn hash_node(left: &[u8; 32], right: &[u8; 32]) -> (r: [u8; 32])
    ensures
        r@ == spec_hash_node(left@, right@),
{
    let mut preimage = [0u8; 65];
    preimage[0] = NODE_PREFIX;
    let mut i: usize = 0;
    while i < 32
        invariant
            i <= 32,
            preimage@[0] == NODE_PREFIX,
            forall|j: int| 0 <= j < i ==> preimage@[1 + j] == left@[j],
            forall|j: int| 0 <= j < i ==> preimage@[33 + j] == right@[j],
        decreases 32 - i,
    {
        preimage[1 + i] = left[i];
        preimage[33 + i] = right[i];
        i = i + 1;
    }
    assert(preimage@ =~= seq![NODE_PREFIX] + left@ + right@);
    blake3_bytes(preimage.as_slice())
}

/// The empty-subtree hash of every height `0..=KEYRING_DEPTH`.
fn zero_hashes() -> (z: [[u8; 32]; 31])
    ensures
        forall|l: int| 0 <= l <= KEYRING_DEPTH ==> #[trigger] z@[l]@ == spec_zero(l as nat),
{
    let mut z = [[0u8; 32]; 31];
    let empty = [0u8; 32];
    assert(empty@ =~= Seq::new(32, |i: int| 0u8));
    z[0] = hash_leaf(&empty);
    let mut level: usize = 1;
    while level <= KEYRING_DEPTH
        invariant
            1 <= level <= KEYRING_DEPTH + 1,
            forall|l: int| 0 <= l < level ==> #[trigger] z@[l]@ == spec_zero(l as nat),
        decreases KEYRING_DEPTH + 1 - level,
    {
        let child = z[level - 1];
        z[level] = hash_node(&child, &child);
        level = level + 1;
    }
    z
}

/// Combine a level of the tree into the next one up: pairs of nodes are
/// hashed together, a missing right sibling being the level's empty hash.
fn fold_level(current: &Vec<[u8; 32]>, zero: &[u8; 32], Ghost(leaves): Ghost<Seq<[u8; 32]>>, Ghost(level): Ghost<nat>) -> (next: Vec<[u8; 32]>)
    requires
        zero@ == spec_zero(level),
        forall|j: int| 0 <= j < current@.len() ==> #[trigger] current@[j]@ == tree_node(leaves, level, j as nat),
        forall|j: nat| j >= current@.len() ==> #[trigger] tree_node(leaves, level, j) == spec_zero(level),
    ensures
        next@.len() == (current@.len() + 1) / 2,
        forall|j: int| 0 <= j < next@.len() ==> #[trigger] next@[j]@ == tree_node(leaves, level + 1, j as nat),
        forall|j: nat| j >= next@.len() ==> #[trigger] tree_node(leaves, level + 1, j) == spec_zero(level + 1),
{
    let mut next: Vec<[u8; 32]> = Vec::new();
    let n = current.len();
    let half = n / 2 + n % 2;
    let mut k: usize = 0;
    while k < half
        invariant
            n == current@.len(),
            half == (n + 1) / 2,
            k <= half,
            next@.len() == k,
            zero@ == spec_zero(level),
            forall|j: int| 0 <= j < current@.len() ==> #[trigger] current@[j]@ == tree_node(leaves, level, j as nat),
            forall|j: nat| j >= current@.len() ==> #[trigger] tree_node(leaves, level, j) == spec_zero(level),
            forall|j: int| 0 <= j < next@.len() ==> #[trigger] next@[j]@ == tree_node(leaves, level + 1, j as nat),
        decreases half - k,
    {
        let i = 2 * k;
        let left = current[i];
        let right = if i + 1 < n { current[i + 1] } else { *zero };
        proof {
            if i + 1 >= n {
                assert(tree_node(leaves, level, (i + 1) as nat) == spec_zero(level));
            }
        }
        let parent = hash_node(&left, &right);
        assert(parent@ == tree_node(leaves, level + 1, k as nat));
        next.push(parent);
        k = k + 1;
    }
    assert forall|j: nat| j >= next@.len() implies #[trigger] tree_node(leaves, level + 1, j) == spec_zero(level + 1) by {
        assert(tree_node(leaves, level, 2 * j) == spec_zero(level));
        assert(tree_node(leaves, level, 2 * j + 1) == spec_zero(level));
    }
    next
}

/// The hashed leaves: level 0 of the tree.
fn leaf_level(leaves: &[[u8; 32]]) -> (r: Vec<[u8; 32]>)
    ensures
        r@.len() == leaves@.len(),
        forall|j: int| 0 <= j < r@.len() ==> #[trigger] r@[j]@ == tree_node(leaves@, 0, j as nat),
        forall|j: nat| j >= r@.len() ==> #[trigger] tree_node(leaves@, 0, j) == spec_zero(0),
{
    let mut r: Vec<[u8; 32]> = Vec::new();
    let mut i: usize = 0;
    while i < leaves.len()
        invariant
            i <= leaves@.len(),
            r@.len() == i,
            forall|j: int| 0 <= j < r@.len() ==> #[trigger] r@[j]@ == tree_node(leaves@, 0, j as nat),
        decreases leaves@.len() - i,
    {
        r.push(hash_leaf(&leaves[i]));
        i = i + 1;
    }
    r
}

/// Every node of a tree without leaves is the empty hash of its height.
proof fn lemma_empty_tree(leaves: Seq<[u8; 32]>, level: nat, idx: nat)
    requires
        leaves.len() == 0,
    ensures
        tree_node(leaves, level, idx) == spec_zero(level),
    decreases level,
{
    if level > 0 {
        lemma_empty_tree(leaves, (level - 1) as nat, 2 * idx);
        lemma_empty_tree(leaves, (level - 1) as nat, 2 * idx + 1);
    }
}

/// Merkle root over a fleet's leaf values, in slots `0..leaves.len()`; the
/// empty slots collapse to the per-level empty hashes, so the work is
/// `O(leaves.len() · KEYRING_DEPTH)`. The root is 32 bytes for any fleet size.
pub fn merkle_root(leaves: &[[u8; 32]]) -> (r: [u8; 32])
    ensures
        r@ == spec_merkle_root(leaves@),
{
    let zeros = zero_hashes();
    if leaves.len() == 0 {
        proof {
            lemma_empty_tree(leaves@, KEYRING_DEPTH as nat, 0);
        }
        return zeros[KEYRING_DEPTH];
    }
    let mut current = leaf_level(leaves);
    let mut level: usize = 0;
    while level < KEYRING_DEPTH
        invariant
            level <= KEYRING_DEPTH,
            current@.len() >= 1,
            forall|l: int| 0 <= l <= KEYRING_DEPTH ==> #[trigger] zeros@[l]@ == spec_zero(l as nat),
            forall|j: int| 0 <= j < current@.len() ==> #[trigger] current@[j]@ == tree_node(leaves@, level as nat, j as nat),
            forall|j: nat| j >= current@.len() ==> #[trigger] tree_node(leaves@, level as nat, j) == spec_zero(level as nat),
        decreases KEYRING_DEPTH - level,
    {
        let zero = zeros[level];
        let ghost lv = level as nat;
        current = fold_level(&current, &zero, Ghost(leaves@), Ghost(lv));
        level = level + 1;
        assert forall|j: nat| j >= current@.len() implies #[trigger] tree_node(leaves@, level as nat, j)
            == spec_zero(level as nat) by {
            assert(tree_node(leaves@, lv + 1, j) == spec_zero(lv + 1));
        }
    }
    current[0]
}

/// The inclusion proof for the leaf in slot `index`: the sibling at every
/// height, leaf to root, an absent sibling being the empty hash of its height.
pub fn inclusion_proof(leaves: &[[u8; 32]], index: usize) -> (r: InclusionProof)
    ensures
        proof_views(r@) == spec_inclusion_proof(leaves@, index as nat),
{
    let zeros = zero_hashes();
    let mut proof = [[0u8; 32]; 30];
    let mut current = leaf_level(leaves);
    let mut idx: usize = index;
    let mut level: usize = 0;
    while level < KEYRING_DEPTH
        invariant
            level <= KEYRING_DEPTH,
            idx == ancestor(index as nat, level as nat),
            forall|l: int| 0 <= l <= KEYRING_DEPTH ==> #[trigger] zeros@[l]@ == spec_zero(l as nat),
            forall|j: int| 0 <= j < current@.len() ==> #[trigger] current@[j]@ == tree_node(leaves@, level as nat, j as nat),
            forall|j: nat| j >= current@.len() ==> #[trigger] tree_node(leaves@, level as nat, j) == spec_zero(level as nat),
            forall|l: int| 0 <= l < level ==> #[trigger] proof@[l]@ == spec_inclusion_proof(leaves@, index as nat)[l],
        decreases KEYRING_DEPTH - level,
    {
        let zero = zeros[level];
        let sibling_idx = idx ^ 1;
        assert((idx % 2 == 0 ==> sibling_idx == idx + 1) && (idx % 2 == 1 ==> sibling_idx == idx
            - 1)) by (bit_vector)
            requires
                sibling_idx == idx ^ 1,
        ;
        assert(sibling_idx == sibling(idx as nat));
        proof[level] = if sibling_idx < current.len() { current[sibling_idx] } else { zero };
        let ghost lv = level as nat;
        current = fold_level(&current, &zero, Ghost(leaves@), Ghost(lv));
        assert(idx >> 1 == idx / 2) by (bit_vector);
        idx = idx >> 1;
        level = level + 1;
        assert forall|j: nat| j >= current@.len() implies #[trigger] tree_node(leaves@, level as nat, j)
            == spec_zero(level as nat) by {
            assert(tree_node(leaves@, lv + 1, j) == spec_zero(lv + 1));
        }
    }
    assert(proof_views(proof@) =~= spec_inclusion_proof(leaves@, index as nat));
    proof
}

/// Byte-wise equality of two nodes.
fn nodes_equal(a: &[u8; 32], b: &[u8; 32]) -> (r: bool)
    ensures
        r == (a@ == b@),
{
    let mut i: usize = 0;
    while i < 32
        invariant
            i <= 32,
            forall|j: int| 0 <= j < i ==> a@[j] == b@[j],
        decreases 32 - i,
    {
        if a[i] != b[i] {
            return false;
        }
        i = i + 1;
    }
    assert(a@ =~= b@);
    true
}

/// Whether `leaf_value` sits in slot `index` under `root`, given its
/// inclusion `proof`: fold the leaf hash up through the siblings (left or
/// right by each index bit) and compare with `root`.
pub fn verify_inclusion(
    leaf_value: &[u8; 32],
    index: usize,
    proof: &InclusionProof,
    root: &[u8; 32],
) -> (r: bool)
    ensures
        r == spec_verify_inclusion(leaf_value@, index as nat, proof_views(proof@), root@),
{
    let ghost views = proof_views(proof@);
    let mut acc = hash_leaf(leaf_value);
    let mut idx: usize = index;
    let mut level: usize = 0;
    while level < KEYRING_DEPTH
        invariant
            level <= KEYRING_DEPTH,
            views == proof_views(proof@),
            idx == ancestor(index as nat, level as nat),
            acc@ == fold_path(spec_hash_leaf(leaf_value@), index as nat, views, level as nat),
        decreases KEYRING_DEPTH - level,
    {
        let sibling = proof[level];
        assert(views[level as int] == sibling@);
        let bit = idx & 1;
        assert((bit == 0) == (idx % 2 == 0)) by (bit_vector)
            requires
                bit == idx & 1,
        ;
        acc = if bit == 0 { hash_node(&acc, &sibling) } else { hash_node(&sibling, &acc) };
        assert(idx >> 1 == idx / 2) by (bit_vector);
        idx = idx >> 1;
        level = level + 1;
    }
    nodes_equal(&acc, root)
}

// ---------------------------------------------------------------------------
// Laws
// ---------------------------------------------------------------------------

/// The ancestor at height `level` is the slot index divided by `2^level`.
proof fn lemma_ancestor_is_div(index: nat, level: nat)
    ensures
        ancestor(index, level) == index / vstd::arithmetic::power2::pow2(level),
    decreases level,
{
    if level == 0 {
        vstd::arithmetic::power2::lemma2_to64();
    } else {
        let lv = (level - 1) as nat;
        let p = vstd::arithmetic::power2::pow2(lv);
        lemma_ancestor_is_div(index, lv);
        vstd::arithmetic::power2::lemma_pow2_unfold(level);
        vstd::arithmetic::power2::lemma_pow2_pos(lv);
        assert(vstd::arithmetic::power2::pow2(level) == p * 2) by {
            vstd::arithmetic::mul::lemma_mul_is_commutative(p as int, 2);
        }
        assert((index as int / p as int) / 2 == index as int / (p * 2) as int) by {
            vstd::arithmetic::div_mod::lemma_div_denominator(index as int, p as int, 2);
        }
        assert(ancestor(index, level) == ancestor(index, lv) / 2);
    }
}

/// Folding a member's leaf hash up its own inclusion proof gives, at every
/// height, the tree node above it.
proof fn lemma_fold_reaches_ancestor(leaves: Seq<[u8; 32]>, index: nat, level: nat)
    requires
        index < leaves.len(),
        level <= KEYRING_DEPTH,
    ensures
        fold_path(
            spec_hash_leaf(leaves[index as int]@),
            index,
            spec_inclusion_proof(leaves, index),
            level,
        ) == tree_node(leaves, level, ancestor(index, level)),
    decreases level,
{
    if level > 0 {
        let lv = (level - 1) as nat;
        lemma_fold_reaches_ancestor(leaves, index, lv);
        let j = ancestor(index, lv);
        assert(spec_inclusion_proof(leaves, index)[lv as int] == tree_node(leaves, lv, sibling(j)));
        if j % 2 == 0 {
            assert(2 * (j / 2) == j && 2 * (j / 2) + 1 == sibling(j));
        } else {
            assert(2 * (j / 2) == sibling(j) && 2 * (j / 2) + 1 == j);
        }
    }
}

/// Every member proves inclusion: for any fleet and any occupied slot below
/// `2^KEYRING_DEPTH`, the leaf in that slot verifies against the fleet's root
/// with the inclusion proof built for that slot.
pub proof fn lemma_member_proves_inclusion(leaves: Seq<[u8; 32]>, index: nat)
    requires
        index < leaves.len(),
        index < 0x4000_0000,
    ensures
        spec_verify_inclusion(
            leaves[index as int]@,
            index,
            spec_inclusion_proof(leaves, index),
            spec_merkle_root(leaves),
        ),
{
    lemma_fold_reaches_ancestor(leaves, index, KEYRING_DEPTH as nat);
    lemma_ancestor_is_div(index, KEYRING_DEPTH as nat);
    assert(vstd::arithmetic::power2::pow2(30) == 0x4000_0000) by {
        vstd::arithmetic::power2::lemma2_to64();
    }
}

/// An empty fleet's root is the empty-tree hash of the full depth.
pub proof fn lemma_empty_fleet_root(leaves: Seq<[u8; 32]>)
    requires
        leaves.len() == 0,
    ensures
        spec_merkle_root(leaves) == spec_zero(KEYRING_DEPTH as nat),
{
    lemma_empty_tree(leaves, KEYRING_DEPTH as nat, 0);
}

} // verus!
