use ihi::{smear_hash, smear_hash_parts, spaghettify};
use sha2::Digest as Sha2Digest;
use sha3::Digest as Sha3Digest;

fn reference_smear(data: &[u8]) -> [u8; 32] {
    let b3 = *blake3::hash(data).as_bytes();
    let s3: [u8; 32] = <sha3::Sha3_256 as Sha3Digest>::digest(data).into();
    let s512: [u8; 64] = <sha2::Sha512 as Sha2Digest>::digest(data).into();
    let mut out = [0u8; 32];
    for i in 0..32 {
        out[i] = b3[i] ^ s3[i] ^ s512[i];
    }
    out
}

#[test]
fn smear_hash_xors_the_three_hashes() {
    for input in [&b""[..], &[0x00][..], &[0xFF][..], &[0xAA, 0x55, 0xAA, 0x55][..], b"alice"] {
        assert_eq!(smear_hash(input), reference_smear(input));
    }
}

#[test]
fn smear_hash_is_not_a_single_hash() {
    let data = b"the quick brown fox jumps over the lazy dog";
    assert_ne!(smear_hash(data), *blake3::hash(data).as_bytes());
}

#[test]
fn smear_hash_parts_equals_smear_of_concat() {
    assert_eq!(smear_hash_parts(&[b"alice", b"bob"]), smear_hash(b"alicebob"));
    assert_eq!(smear_hash_parts(&[b"alice", b"bob", b"carol"]), smear_hash(b"alicebobcarol"));
    assert_eq!(smear_hash_parts(&[&[0x00; 16], &[0xFF; 16]]), smear_hash(&[[0x00; 16], [0xFF; 16]].concat()));
}

#[test]
fn smear_hash_parts_of_nothing_is_smear_of_empty() {
    assert_eq!(smear_hash_parts(&[]), smear_hash(b""));
    assert_eq!(smear_hash_parts(&[b""]), smear_hash(b""));
}

#[test]
fn spaghettify_is_smear_of_chaos_state_and_input() {
    for input in [&b""[..], b"alice", &[0xFF; 32][..]] {
        let mut block = [0u8; 64];
        let mut h = blake3::Hasher::new();
        h.update(input);
        h.finalize_xof().fill(&mut block);
        let chaos = ihi::chaos_amp(&block);
        assert_eq!(spaghettify(input), smear_hash_parts(&[&chaos, input]));
    }
}

#[test]
fn spaghettify_separates_inputs() {
    assert_ne!(spaghettify(b""), spaghettify(&[0x00]));
    assert_ne!(spaghettify(b"alice"), spaghettify(b"alicf"));
}
