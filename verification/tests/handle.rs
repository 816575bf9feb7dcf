use ihi::{handle_to_hash, proof_to_filename};

#[test]
fn proof_to_filename_all_zero() {
    assert_eq!(proof_to_filename(&[0u8; 32]), "AAAAAAAAAAAAAAAAAAAAAAAAAAAAAAAAAAAAAAAAAAA.vsf");
}

#[test]
fn proof_to_filename_all_ones() {
    assert_eq!(proof_to_filename(&[0xFFu8; 32]), "__________________________________________8.vsf");
}

#[test]
fn proof_to_filename_counting() {
    let mut p = [0u8; 32];
    for (i, b) in p.iter_mut().enumerate() {
        *b = i as u8;
    }
    assert_eq!(proof_to_filename(&p), "AAECAwQFBgcICQoLDA0ODxAREhMUFRYXGBkaGxwdHh8.vsf");
}

#[test]
fn proof_to_filename_is_47_url_safe_chars() {
    let p = *blake3::hash(b"alice").as_bytes();
    let f = proof_to_filename(&p);
    assert_eq!(f.len(), 47);
    assert!(f.ends_with(".vsf"));
    assert!(f[..43].chars().all(|c| c.is_ascii_alphanumeric() || c == '-' || c == '_'));
}

#[test]
fn handle_to_hash_is_blake3_of_vsf_text() {
    let bytes = vsf::types::VsfType::x("fractal decoder".to_string()).flatten();
    assert_eq!(handle_to_hash("fractal decoder"), *blake3::hash(&bytes).as_bytes());
}

#[test]
fn handle_to_hash_is_nfc_canonical() {
    assert_eq!(handle_to_hash("café"), handle_to_hash("cafe\u{0301}"));
    assert_ne!(handle_to_hash("café"), handle_to_hash("cafe"));
}

use ihi::handle::{mix_chunk, round_setup, MAX_FILL, MIN_FILL};

fn counting(start: u8) -> [u8; 32] {
    let mut b = [0u8; 32];
    for (i, x) in b.iter_mut().enumerate() {
        *x = start + i as u8;
    }
    b
}

#[test]
fn round_setup_zero_hash() {
    let (hash_num, fill) = round_setup(&[0u8; 32], 0);
    assert_eq!(hash_num, [0u8; 32]);
    assert_eq!(fill, 6_218_464);
}

#[test]
fn round_setup_wraps_at_256_bits() {
    let (hash_num, fill) = round_setup(&[0xFFu8; 32], 1);
    assert_eq!(hash_num, [0u8; 32]);
    assert_eq!(fill, 6_218_464);
    let (hash_num, _) = round_setup(&[0xFFu8; 32], 16);
    let mut expected = [0u8; 32];
    expected[31] = 15;
    assert_eq!(hash_num, expected);
}

#[test]
fn round_setup_fill_from_hash() {
    let (hash_num, fill) = round_setup(&counting(0), 5);
    let mut expected = counting(0);
    expected[31] = 36;
    assert_eq!(hash_num, expected);
    assert_eq!(fill, 17_280_640);
    assert!(MIN_FILL <= fill && fill < MAX_FILL && fill % 32 == 0);
}

#[test]
fn mix_chunk_carries_and_wraps() {
    let mut one = [0u8; 32];
    one[31] = 1;
    assert_eq!(mix_chunk(&[0xFF; 32], &one, 0), [0u8; 32]);
    let mut five = [0u8; 32];
    five[31] = 5;
    assert_eq!(mix_chunk(&[0xFF; 32], &[0xFF; 32], 7), five);
}

#[test]
fn mix_chunk_adds_position() {
    let expected: [u8; 32] = [
        32, 34, 36, 38, 40, 42, 44, 46, 48, 50, 52, 54, 56, 58, 60, 62, 64, 66, 68, 70, 72, 74,
        76, 78, 80, 82, 84, 86, 89, 213, 231, 190,
    ];
    assert_eq!(mix_chunk(&counting(0), &counting(32), 24_873_824), expected);
}
