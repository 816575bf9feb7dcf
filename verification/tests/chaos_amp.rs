use ihi::{_round_consts_for_test, chaos_amp};

fn check(input: [u8; 64], expected: [u8; 48]) {
    assert_eq!(chaos_amp(&input), expected);
}

#[test]
fn chaos_amp_all_zero_block() {
    check(
        [0u8; 64],
        [
            0x55, 0xb7, 0x2a, 0x28, 0x04, 0x56, 0x11, 0x55, 0x38, 0x9b, 0x20, 0x87, 0x0c, 0xc7,
            0x12, 0xa4, 0x88, 0xb8, 0x91, 0xfd, 0xc8, 0xee, 0xd1, 0x02, 0x5b, 0x23, 0x28, 0xdc,
            0x88, 0x3c, 0x74, 0x8e, 0x2f, 0x17, 0x24, 0xca, 0xc6, 0xa0, 0x6f, 0x82, 0x5a, 0x99,
            0xdd, 0x1e, 0x5a, 0xbc, 0x4a, 0x54,
        ],
    );
}

#[test]
fn chaos_amp_all_ones_block() {
    check(
        [0xFFu8; 64],
        [
            0x04, 0x94, 0x59, 0x06, 0xab, 0x66, 0xf1, 0x3d, 0x66, 0x99, 0xde, 0xe9, 0xef, 0xce,
            0xf8, 0xf2, 0x58, 0x3c, 0x3b, 0x51, 0x6c, 0xa8, 0xee, 0x91, 0xd0, 0x32, 0xcb, 0x4b,
            0x4c, 0x32, 0xcb, 0xf8, 0x40, 0x23, 0x0a, 0x0e, 0x40, 0x2c, 0x17, 0x5e, 0x41, 0xbc,
            0xc2, 0x4f, 0xf7, 0xf7, 0x83, 0x5e,
        ],
    );
}

#[test]
fn chaos_amp_counting_block() {
    let mut input = [0u8; 64];
    for (i, b) in input.iter_mut().enumerate() {
        *b = i as u8;
    }
    check(
        input,
        [
            0xf5, 0xf8, 0xa5, 0xdb, 0x1c, 0xd1, 0x33, 0x05, 0x96, 0x47, 0x70, 0x05, 0x71, 0xf2,
            0x0a, 0xe8, 0x66, 0x52, 0x55, 0x3d, 0x5a, 0x2b, 0x26, 0x56, 0x92, 0xd6, 0x24, 0xc8,
            0xe4, 0x85, 0x4a, 0x9b, 0xe5, 0xe9, 0x81, 0x00, 0xe9, 0xd5, 0xc1, 0xb7, 0xd2, 0xd9,
            0xeb, 0x4b, 0xbb, 0x67, 0xb3, 0x51,
        ],
    );
}

#[test]
fn chaos_amp_strided_block() {
    let mut input = [0u8; 64];
    for (i, b) in input.iter_mut().enumerate() {
        *b = ((i * 37 + 11) & 0xFF) as u8;
    }
    check(
        input,
        [
            0x3a, 0x96, 0xb1, 0x22, 0x9d, 0x66, 0x3f, 0x51, 0x67, 0x96, 0xad, 0x8c, 0x51, 0x70,
            0xae, 0x6c, 0xf9, 0x85, 0x1b, 0x1d, 0x5b, 0x8d, 0xe2, 0xaa, 0x1d, 0x70, 0x97, 0xab,
            0xba, 0xaa, 0x33, 0x30, 0x57, 0x92, 0x04, 0x3b, 0xd2, 0x19, 0xd2, 0xae, 0xce, 0x7e,
            0x01, 0xa0, 0x29, 0x5c, 0xc6, 0x4a,
        ],
    );
}

#[test]
fn chaos_amp_is_deterministic() {
    let h = blake3::hash(b"alice");
    let mut b = [0u8; 64];
    b[..32].copy_from_slice(h.as_bytes());
    b[32..].copy_from_slice(h.as_bytes());
    assert_eq!(chaos_amp(&b), chaos_amp(&b));
}

#[test]
fn single_bit_flip_changes_output() {
    let base = [0x5Au8; 64];
    let out = chaos_amp(&base);
    for i in 0..64 {
        for k in 0..8 {
            let mut flipped = base;
            flipped[i] ^= 1 << k;
            assert_ne!(chaos_amp(&flipped), out, "bit {} of byte {}", k, i);
        }
    }
}

#[test]
fn chaos_amp_round_consts_match_blake3() {
    let mut expected = [0u32; 16];
    let a = blake3::hash(b"PIPE chaos amp v2 - Dragonfly");
    let b = blake3::hash(b"PIPE chaos amp v2 - Dragonfly - more");
    for i in 0..8 {
        expected[i] = u32::from_le_bytes(a.as_bytes()[4 * i..4 * i + 4].try_into().unwrap());
        expected[8 + i] = u32::from_le_bytes(b.as_bytes()[4 * i..4 * i + 4].try_into().unwrap());
    }
    assert_eq!(_round_consts_for_test(), expected);
}

use ihi::chaos_amp::alu::{gf_mul, op_apply};
use ihi::chaos_amp::{absorb_input, pos_const, round, state_to_bytes};

#[test]
fn pos_const_examples() {
    assert_eq!(pos_const(0, 0), 0);
    assert_eq!(pos_const(1, 0), 0x3779B9);
    assert_eq!(pos_const(0, 1), 0x7CC1B7);
    assert_eq!(pos_const(1, 1), 0x4BB80E);
}

#[test]
fn pos_const_truncates_to_32_bits() {
    let big = usize::MAX;
    let expected = ((big as u32).wrapping_mul(0x9E37_79B9) ^ 7u32.wrapping_mul(0x517C_C1B7)) & 0x00FF_FFFF;
    assert_eq!(pos_const(big, 7), expected);
}

#[test]
fn gf_mul_aes_examples() {
    assert_eq!(gf_mul(0x57, 0x83), 0xC1);
    assert_eq!(gf_mul(0x57, 0x13), 0xFE);
    assert_eq!(gf_mul(0x83, 0x57), 0xC1);
    assert_eq!(gf_mul(0xAB, 1), 0xAB);
    assert_eq!(gf_mul(0xAB, 0), 0);
}

#[test]
fn op_apply_examples() {
    // MUL_LO loses information: both products are zero.
    assert_eq!(op_apply(2, 1, 0), 0);
    assert_eq!(op_apply(2, 0, 0), 0);
    // ADD on both lanes: 0x01_0002 + 0x03_0004.
    assert_eq!(op_apply(0, 0x01_0002, 0x03_0004), 0x04_0006);
    // XOR.
    assert_eq!(op_apply(5, 0x12_3456, 0xFF_00FF), 0xED_34A9);
    // SQUEEZE paints one byte across the bucket.
    let r = op_apply(29, 0x12_3456, 0x65_4321);
    assert_eq!(r & 0xFF, (r >> 8) & 0xFF);
    assert_eq!(r & 0xFF, r >> 16);
}

#[test]
fn absorb_folds_top_byte() {
    let mut input = [0u8; 64];
    input[0] = 0x01;
    input[1] = 0x02;
    input[2] = 0x03;
    input[3] = 0x10;
    let s = absorb_input(&input);
    assert_eq!(s[0], 0x03_0211);
    assert!(s[1..].iter().all(|&v| v == 0));
}

#[test]
fn state_to_bytes_round_trips_buckets() {
    let mut s = [0u32; 16];
    for (i, v) in s.iter_mut().enumerate() {
        *v = (i as u32) * 0x0F_1E2D;
    }
    let out = state_to_bytes(&s);
    for i in 0..16 {
        let v = (out[3 * i] as u32) | (out[3 * i + 1] as u32) << 8 | (out[3 * i + 2] as u32) << 16;
        assert_eq!(v, s[i]);
    }
}

#[test]
fn round_keeps_buckets_24_bit() {
    let mut s = [0xFFFF_FFFFu32; 16];
    round(&mut s, 3);
    assert!(s.iter().all(|&v| v <= 0x00FF_FFFF));
}
