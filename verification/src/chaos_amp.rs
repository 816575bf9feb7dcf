//! Chaos amplifier: 64 bytes in, 48 bytes out.
//!
//! The state is 16 buckets of 24 bits each (a `u32` per bucket whose top
//! byte is always zero). Absorption folds 4 input bytes into each bucket;
//! 16 rounds follow, each an op-selection phase over a snapshot of the state
//! and an add-rotate-xor diffusion phase; the buckets are then written out as
//! 3 little-endian bytes each.
use vstd::prelude::*;

pub mod alu;

use alu::{op_apply, spec_op_apply};

verus! {

/// Number of buckets in the state.
pub const BUCKETS: usize = 16;

/// Number of rounds.
pub const ROUNDS: usize = 16;

/// The 24 bits a bucket may use.
pub const BUCKET_MASK: u32 = 0x00FF_FFFF;

/// 384-bit state: 16 buckets of 24 bits, the top byte of each `u32` zero.
pub type ChaosState = [u32; BUCKETS];

/// One constant per round: the first 8 little-endian `u32` words of
/// `blake3("PIPE chaos amp v2 - Dragonfly")`, then the first 8 of
/// `blake3("PIPE chaos amp v2 - Dragonfly - more")`.
pub const ROUND_CONSTS: [u32; ROUNDS] = [
    0x6344f5d9, 0x9a9b6f24, 0xac41a271, 0xc373c1f2, 0x261b7279, 0x6f4d3ec7, 0x23f83617, 0x1816c525,
    0x1fa89706, 0xb8278130, 0x12c98cb4, 0x755dd5a8, 0x5b4b9635, 0x3f76d80f, 0x033b166b, 0xcd721263,
];

// ---------------------------------------------------------------------------
// Specification
// ---------------------------------------------------------------------------

/// A state is well formed when it has 16 buckets, each below 2^24.
pub open spec fn state_wf(s: Seq<u32>) -> bool {
    &&& s.len() == BUCKETS
    &&& forall|i: int| 0 <= i < s.len() ==> #[trigger] s[i] < 0x100_0000
}

/// Constant of round `r`.
pub open spec fn round_const(r: int) -> u32 {
    ROUND_CONSTS@[r]
}

/// Position constant: `i` and `r` each truncated to 32 bits and multiplied,
/// modulo 2^32, by `0x9E3779B9` and `0x517CC1B7` respectively; the two
/// products XORed and masked to 24 bits.
pub open spec fn spec_pos_const(i: int, r: int) -> u32 {
    ((((i as u32) as nat * 0x9E37_79B9) % 0x1_0000_0000) as u32 ^ (((r as u32) as nat
        * 0x517C_C1B7) % 0x1_0000_0000) as u32) & BUCKET_MASK
}

/// Phase 1 of round `r` for bucket `i`: the op selected by the low 5 bits of
/// the bucket, applied with the bucket 11 places on as its neighbour, then
/// mixed with the round and position constants.
pub open spec fn phase1(s: Seq<u32>, r: int, i: int) -> u32 {
    let val = s[i];
    ((spec_op_apply((val & 0x1F) as u8, val, s[(i + 11) % 16]) ^ round_const(r)) ^ spec_pos_const(
        i,
        r,
    )) & BUCKET_MASK
}

/// Rotate a 24-bit value left by 5.
pub open spec fn rotl24_5(t: u32) -> u32 {
    ((t << 5u32) | (t >> 19u32)) & BUCKET_MASK
}

/// Phase 2 for bucket `i`: the phase-1 values at `i`, `i + 1` and (rotated)
/// `i + 7`, added modulo 2^24.
pub open spec fn phase2(s: Seq<u32>, r: int, i: int) -> u32 {
    ((phase1(s, r, i) + phase1(s, r, (i + 1) % 16) + rotl24_5(phase1(s, r, (i + 7) % 16)))
        % 0x100_0000) as u32
}

/// The state after round `r`.
pub open spec fn spec_round(s: Seq<u32>, r: int) -> Seq<u32> {
    Seq::new(16, |i: int| phase2(s, r, i))
}

/// The state after the first `n` rounds.
pub open spec fn spec_rounds(s: Seq<u32>, n: nat) -> Seq<u32>
    decreases n,
{
    if n == 0 {
        s
    } else {
        spec_round(spec_rounds(s, (n - 1) as nat), n - 1)
    }
}

/// Bucket `i` after absorption of 64 input bytes `b`: the 4 bytes
/// `b[4i..4i+4]`, little-endian, with the top byte folded into the bottom.
pub open spec fn absorbed_bucket(b: Seq<u8>, i: int) -> u32 {
    ((b[4 * i] ^ b[4 * i + 3]) + b[4 * i + 1] * 0x100 + b[4 * i + 2] * 0x1_0000) as u32
}

/// The initial state.
pub open spec fn spec_absorb(b: Seq<u8>) -> Seq<u32> {
    Seq::new(16, |i: int| absorbed_bucket(b, i))
}

/// Byte `k` (0, 1 or 2) of a bucket, little-endian.
pub open spec fn bucket_byte(v: u32, k: int) -> u8 {
    ((v >> ((8 * k) as u32)) & 0xFF) as u8
}

/// The 48 output bytes: 3 little-endian bytes per bucket.
pub open spec fn spec_state_to_bytes(s: Seq<u32>) -> Seq<u8> {
    Seq::new(48, |j: int| bucket_byte(s[j / 3], j % 3))
}

/// The chaos amplifier on 64 input bytes.
pub open spec fn spec_chaos_amp(input: Seq<u8>) -> Seq<u8> {
    spec_state_to_bytes(spec_rounds(spec_absorb(input), ROUNDS as nat))
}

// ---------------------------------------------------------------------------
// Implementation
// ---------------------------------------------------------------------------

/// Position constant of bucket `i` in round `round_idx`.
pub fn pos_const(i: usize, round_idx: usize) -> (r: u32)
    ensures
        r == spec_pos_const(i as int, round_idx as int),
{
    ((i as u32).wrapping_mul(0x9E37_79B9) ^ (round_idx as u32).wrapping_mul(0x517C_C1B7))
        & BUCKET_MASK
}

/// One round: op selection over a snapshot of the state, then diffusion.
pub fn round(state: &mut ChaosState, round_idx: usize)
    requires
        round_idx < ROUNDS,
    ensures
        final(state)@ == spec_round(old(state)@, round_idx as int),
        state_wf(final(state)@),
{
    let snap = *state;
    let rc = ROUND_CONSTS[round_idx];
    let mut tmp = [0u32; 16];
    let mut i: usize = 0;
    while i < BUCKETS
        invariant
            i <= BUCKETS,
            snap@ == old(state)@,
            rc == round_const(round_idx as int),
            round_idx < ROUNDS,
            forall|j: int| 0 <= j < i ==> tmp@[j] == phase1(snap@, round_idx as int, j),
        decreases BUCKETS - i,
    {
        let val = snap[i];
        let op_idx = (val & 0x1F) as u8;
        let k = (i + 11) & (BUCKETS - 1);
        assert(k == (i + 11) % 16) by (bit_vector)
            requires
                i < 16,
                k == ((i + 11) as usize) & 15,
        ;
        let secondary = snap[k];
        let result = op_apply(op_idx, val, secondary);
        tmp[i] = (result ^ rc ^ pos_const(i, round_idx)) & BUCKET_MASK;
        i = i + 1;
    }
    let mut i: usize = 0;
    while i < BUCKETS
        invariant
            i <= BUCKETS,
            snap@ == old(state)@,
            round_idx < ROUNDS,
            forall|j: int| 0 <= j < 16 ==> tmp@[j] == phase1(snap@, round_idx as int, j),
            forall|j: int| 0 <= j < i ==> state@[j] == phase2(snap@, round_idx as int, j),
            forall|j: int| 0 <= j < i ==> state@[j] < 0x100_0000,
        decreases BUCKETS - i,
    {
        let k1 = (i + 1) & (BUCKETS - 1);
        let k7 = (i + 7) & (BUCKETS - 1);
        assert(k1 == (i + 1) % 16 && k7 == (i + 7) % 16) by (bit_vector)
            requires
                i < 16,
                k1 == ((i + 1) as usize) & 15,
                k7 == ((i + 7) as usize) & 15,
        ;
        let a = tmp[i];
        let near = tmp[k1];
        let far = tmp[k7];
        let far_rot = ((far << 5) | (far >> (24 - 5))) & BUCKET_MASK;
        let s1 = a.wrapping_add(near);
        let mixed = s1.wrapping_add(far_rot);
        let v = mixed & BUCKET_MASK;
        assert(v == ((a + near + far_rot) % 0x100_0000) as u32 && v < 0x100_0000) by (bit_vector)
            requires
                s1 == (if a + near > 0xFFFF_FFFF {
                    (a + near - 0x1_0000_0000) as u32
                } else {
                    (a + near) as u32
                }),
                mixed == (if s1 + far_rot > 0xFFFF_FFFF {
                    (s1 + far_rot - 0x1_0000_0000) as u32
                } else {
                    (s1 + far_rot) as u32
                }),
                v == mixed & 0xFF_FFFF,
        ;
        state[i] = v;
        i = i + 1;
    }
    assert(state@ =~= spec_round(old(state)@, round_idx as int));
}

/// Absorb a 64-byte block: each bucket takes 4 bytes as a little-endian
/// `u32` whose top byte is folded into the bottom one, truncated to 24 bits.
pub fn absorb_input(input: &[u8; 64]) -> (r: ChaosState)
    ensures
        r@ == spec_absorb(input@),
        state_wf(r@),
{
    let mut state = [0u32; 16];
    let mut i: usize = 0;
    while i < BUCKETS
        invariant
            i <= BUCKETS,
            forall|j: int| 0 <= j < i ==> state@[j] == absorbed_bucket(input@, j),
            forall|j: int| 0 <= j < i ==> state@[j] < 0x100_0000,
        decreases BUCKETS - i,
    {
        let b0 = input[i * 4];
        let b1 = input[i * 4 + 1];
        let b2 = input[i * 4 + 2];
        let b3 = input[i * 4 + 3];
        let chunk = (b0 as u32) | ((b1 as u32) << 8) | ((b2 as u32) << 16) | ((b3 as u32) << 24);
        let folded = chunk ^ ((chunk >> 24) & 0xFF);
        let v = folded & BUCKET_MASK;
        assert(v == ((b0 ^ b3) + b1 * 0x100 + b2 * 0x1_0000) as u32 && v < 0x100_0000)
            by (bit_vector)
            requires
                chunk == (b0 as u32) | ((b1 as u32) << 8) | ((b2 as u32) << 16) | ((b3 as u32)
                    << 24),
                folded == chunk ^ ((chunk >> 24) & 0xFF),
                v == folded & 0xFF_FFFF,
        ;
        state[i] = v;
        i = i + 1;
    }
    assert(state@ =~= spec_absorb(input@));
    state
}

/// Serialize the 16 buckets to 48 bytes, 3 little-endian bytes per bucket.
pub fn state_to_bytes(state: &ChaosState) -> (r: [u8; 48])
    ensures
        r@ == spec_state_to_bytes(state@),
        state_wf(state@) ==> forall|i: int|
            0 <= i < 16 ==> #[trigger] ((r@[3 * i] as u32) | ((r@[3 * i + 1] as u32) << 8u32) | ((
            r@[3 * i + 2] as u32) << 16u32)) == state@[i],
{
    let mut out = [0u8; 48];
    let mut i: usize = 0;
    while i < BUCKETS
        invariant
            i <= BUCKETS,
            forall|j: int| 0 <= j < 3 * i ==> out@[j] == bucket_byte(state@[j / 3], j % 3),
            forall|j: int|
                0 <= j < i ==> state@[j] < 0x100_0000 ==> #[trigger] ((out@[3 * j] as u32) | ((out@[3
                    * j + 1] as u32) << 8u32) | ((out@[3 * j + 2] as u32) << 16u32)) == state@[j],
        decreases BUCKETS - i,
    {
        let v = state[i];
        assert(v as u8 == bucket_byte(v, 0) && (v >> 8) as u8 == bucket_byte(v, 1) && (v >> 16)
            as u8 == bucket_byte(v, 2) && (v < 0x100_0000 ==> ((v as u8) as u32) | (((v >> 8) as u8
            as u32) << 8u32) | (((v >> 16) as u8 as u32) << 16u32) == v)) by (bit_vector);
        out[i * 3] = v as u8;
        out[i * 3 + 1] = (v >> 8) as u8;
        out[i * 3 + 2] = (v >> 16) as u8;
        i = i + 1;
    }
    assert(out@ =~= spec_state_to_bytes(state@));
    out
}

/// Run the chaos amplifier over a 64-byte block: absorb, 16 rounds, write
/// out 48 bytes. Pure integer arithmetic throughout.
pub fn chaos_amp(input: &[u8; 64]) -> (r: [u8; 48])
    ensures
        r@ == spec_chaos_amp(input@),
{
    let mut state = absorb_input(input);
    let mut r: usize = 0;
    while r < ROUNDS
        invariant
            r <= ROUNDS,
            state@ == spec_rounds(spec_absorb(input@), r as nat),
            state_wf(state@),
        decreases ROUNDS - r,
    {
        round(&mut state, r);
        r = r + 1;
    }
    state_to_bytes(&state)
}

/// The 16 round constants, for checking them against their BLAKE3 derivation.
pub fn _round_consts_for_test() -> (r: [u32; ROUNDS])
    ensures
        r@ == ROUND_CONSTS@,
{
    ROUND_CONSTS
}

// ---------------------------------------------------------------------------
// Laws
// ---------------------------------------------------------------------------

/// The state invariant: the absorbed state and the state after any number
/// of rounds keep every bucket within 24 bits.
pub proof fn lemma_buckets_stay_24_bit(b: Seq<u8>, n: nat)
    requires
        b.len() == 64,
    ensures
        state_wf(spec_rounds(spec_absorb(b), n)),
    decreases n,
{
    if n > 0 {
        lemma_buckets_stay_24_bit(b, (n - 1) as nat);
    } else {
        assert forall|i: int| 0 <= i < 16 implies #[trigger] spec_absorb(b)[i] < 0x100_0000 by {
            assert(absorbed_bucket(b, i) < 0x100_0000);
        }
    }
}

/// Every one of the 512 input bits reaches the initial state: flipping any
/// single bit of a 64-byte block changes the absorbed state.
pub proof fn lemma_absorb_every_bit_counts(b: Seq<u8>, i: int, k: u8)
    requires
        b.len() == 64,
        0 <= i < 64,
        k < 8,
    ensures
        spec_absorb(b.update(i, b[i] ^ (1u8 << k))) != spec_absorb(b),
{
    let c = b.update(i, b[i] ^ (1u8 << k));
    let j = i / 4;
    let x = b[i];
    let y = c[i];
    assert(y != x) by (bit_vector)
        requires
            y == x ^ (1u8 << k),
            k < 8,
    ;
    let p0 = b[4 * j];
    let p3 = b[4 * j + 3];
    let q0 = c[4 * j];
    let q3 = c[4 * j + 3];
    if i % 4 == 0 {
        assert(q0 ^ q3 != p0 ^ p3) by (bit_vector)
            requires
                q0 != p0,
                q3 == p3,
        ;
    } else if i % 4 == 3 {
        assert(q0 ^ q3 != p0 ^ p3) by (bit_vector)
            requires
                q0 == p0,
                q3 != p3,
        ;
    }
    assert(absorbed_bucket(c, j) != absorbed_bucket(b, j));
    assert(spec_absorb(c)[j] != spec_absorb(b)[j]);
}

/// Writing out the state loses nothing: two well-formed states with the same
/// 48 output bytes are equal.
pub proof fn lemma_state_to_bytes_injective(a: Seq<u32>, b: Seq<u32>)
    requires
        state_wf(a),
        state_wf(b),
        spec_state_to_bytes(a) == spec_state_to_bytes(b),
    ensures
        a == b,
{
    assert forall|i: int| 0 <= i < 16 implies a[i] == b[i] by {
        let x = a[i];
        let y = b[i];
        let sa = spec_state_to_bytes(a);
        let sb = spec_state_to_bytes(b);
        assert forall|k: int| 0 <= k < 3 implies bucket_byte(x, k) == bucket_byte(y, k) by {
            let j = 3 * i + k;
            assert(j / 3 == i && j % 3 == k);
            assert(sa[j] == bucket_byte(a[j / 3], j % 3));
            assert(sb[j] == bucket_byte(b[j / 3], j % 3));
        }
        assert(bucket_byte(x, 0) == bucket_byte(y, 0));
        assert(bucket_byte(x, 1) == bucket_byte(y, 1));
        assert(bucket_byte(x, 2) == bucket_byte(y, 2));
        assert(x == y) by (bit_vector)
            requires
                x < 0x100_0000,
                y < 0x100_0000,
                ((x >> 0u32) & 0xFF) as u8 == ((y >> 0u32) & 0xFF) as u8,
                ((x >> 8u32) & 0xFF) as u8 == ((y >> 8u32) & 0xFF) as u8,
                ((x >> 16u32) & 0xFF) as u8 == ((y >> 16u32) & 0xFF) as u8,
        ;
    }
    assert(a =~= b);
}

/// The diffusion rotation is a rotation of the 24-bit bucket: the top 5
/// bits come round to the bottom, the other 19 move up by 5.
pub proof fn lemma_rotl24_5_rotates(t: u32)
    requires
        t < 0x100_0000,
    ensures
        rotl24_5(t) == (t % 0x8_0000) * 32 + t / 0x8_0000,
{
    assert(((t << 5u32) | (t >> 19u32)) & 0xFF_FFFF == (t % 0x8_0000) * 32 + t / 0x8_0000)
        by (bit_vector)
        requires
            t < 0x100_0000,
    ;
}

} // verus!
