//! Handle identities: the canonical handle hash, the memory-hard sequential
//! proof-of-work over it, and the base64url filename of a proof.
use vstd::prelude::*;
use vstd::string::*;

use crate::hashes::{blake3_bytes, spec_blake3};
use crate::wide::{
    be_bytes, be_value, lemma_be_add, lemma_be_bytes_len, lemma_be_small, u256_from_u128,
    u256_rem_u128, u256_wrapping_add,
};

verus! {

/// Scratch buffer size: 24 873 856 bytes.
pub const SIZE: usize = 24_873_856;

/// Size of one chunk of the scratch buffer: a BLAKE3 output.
pub const CHUNK_SIZE: usize = 32;

/// Number of sequential rounds.
pub const ROUNDS: usize = 17;

/// Smallest filled prefix of the buffer in a round (25%).
pub const MIN_FILL: usize = SIZE / 4;

/// Bound of the filled prefix of the buffer in a round (75%).
pub const MAX_FILL: usize = SIZE * 3 / 4;

/// Width of the range the filled prefix is drawn from.
pub const FILL_RANGE: usize = MAX_FILL - MIN_FILL;

// ---------------------------------------------------------------------------
// Specification
// ---------------------------------------------------------------------------

/// What `vsf::types::VsfType::x(text).flatten()` gives: the canonical VSF
/// encoding of a text value.
pub uninterp spec fn spec_vsf_text(text: Seq<char>) -> Seq<u8>;

/// Canonical handle hash: `BLAKE3(VSF x-encoding of the handle)`.
pub open spec fn spec_handle_to_hash(handle: Seq<char>) -> Seq<u8> {
    spec_blake3(spec_vsf_text(handle))
}

/// The round hash plus the round number, as a 32-byte big-endian word.
pub open spec fn spec_hash_num(round_hash: Seq<u8>, round: nat) -> Seq<u8> {
    be_bytes(be_value(round_hash) + round, 32)
}

/// Length of the filled prefix in a round: 25% of the buffer plus the mixed
/// round hash modulo 50% of it, rounded down to a whole chunk.
pub open spec fn spec_fill_size(hash_num: Seq<u8>) -> nat {
    ((MIN_FILL as nat + be_value(hash_num) % (FILL_RANGE as nat)) / 32) * 32
}

/// Chunk `i` (at byte `32 * i`) given the `32 * i` bytes before it.
/// Inside the filled prefix it hashes the previous chunk; past it, it hashes
/// the 32 bytes at an offset chosen by the previous chunk's value. Either way
/// the hash is added to the mixed round hash and the position.
pub open spec fn next_chunk(prev: Seq<u8>, hash_num: Seq<u8>, fill: nat, i: nat) -> Seq<u8> {
    let cs = 32 * i;
    let last = prev.subrange(cs - 32, cs as int);
    if cs < fill {
        be_bytes(be_value(spec_blake3(last)) + be_value(hash_num) + i, 32)
    } else {
        let read = be_value(last) % ((cs - 32) as nat);
        be_bytes(
            be_value(spec_blake3(prev.subrange(read as int, (read + 32) as int))) + be_value(hash_num) + cs,
            32,
        )
    }
}

/// The first `32 * k` bytes of the scratch buffer in a round: chunk 0 is the
/// round hash, each later chunk follows from the ones before.
pub open spec fn scratch_prefix(round_hash: Seq<u8>, hash_num: Seq<u8>, fill: nat, k: nat) -> Seq<
    u8,
>
    decreases k,
{
    if k == 0 {
        Seq::empty()
    } else if k == 1 {
        round_hash
    } else {
        let prev = scratch_prefix(round_hash, hash_num, fill, (k - 1) as nat);
        prev + next_chunk(prev, hash_num, fill, (k - 1) as nat)
    }
}

/// The whole scratch buffer at the end of round `round`.
pub open spec fn spec_scratch(round_hash: Seq<u8>, round: nat) -> Seq<u8> {
    let hn = spec_hash_num(round_hash, round);
    scratch_prefix(round_hash, hn, spec_fill_size(hn), (SIZE / CHUNK_SIZE) as nat)
}

/// The round hash after the first `n` rounds.
pub open spec fn spec_proof_rounds(hash: Seq<u8>, n: nat) -> Seq<u8>
    decreases n,
{
    if n == 0 {
        hash
    } else {
        let h = spec_proof_rounds(hash, (n - 1) as nat);
        spec_blake3(spec_scratch(h, (n - 1) as nat))
    }
}

/// The proof-of-work of a handle hash: the round hash after all rounds.
pub open spec fn spec_handle_proof(hash: Seq<u8>) -> Seq<u8> {
    spec_proof_rounds(hash, ROUNDS as nat)
}

/// The public proof of a handle.
pub open spec fn spec_handle_to_proof(handle: Seq<char>) -> Seq<u8> {
    spec_handle_proof(spec_handle_to_hash(handle))
}

/// Character of a 6-bit value in the RFC 4648 base64url alphabet
/// (`A-Z`, `a-z`, `0-9`, `-`, `_`).
pub open spec fn b64_char(v: nat) -> char {
    if v < 26 {
        (v + 65) as char
    } else if v < 52 {
        (v - 26 + 97) as char
    } else if v < 62 {
        (v - 52 + 48) as char
    } else if v == 62 {
        '-'
    } else {
        '_'
    }
}

/// Bits `shift..shift + 6` of a 24-bit group.
pub open spec fn sextet(group: u32, shift: u32) -> nat {
    ((group >> shift) & 0x3F) as nat
}

/// The 24-bit group of up to three bytes (missing bytes read as zero).
pub open spec fn group3(b0: u8, b1: u8, b2: u8) -> u32 {
    ((b0 as u32) << 16u32) | ((b1 as u32) << 8u32) | (b2 as u32)
}

/// Base64url encoding without padding: four characters per three bytes,
/// then three characters for two leftover bytes or two for one.
pub open spec fn spec_base64url(b: Seq<u8>) -> Seq<char>
    decreases b.len(),
{
    if b.len() >= 3 {
        let g = group3(b[0], b[1], b[2]);
        seq![
            b64_char(sextet(g, 18)),
            b64_char(sextet(g, 12)),
            b64_char(sextet(g, 6)),
            b64_char(sextet(g, 0)),
        ] + spec_base64url(b.subrange(3, b.len() as int))
    } else if b.len() == 2 {
        let g = group3(b[0], b[1], 0);
        seq![b64_char(sextet(g, 18)), b64_char(sextet(g, 12)), b64_char(sextet(g, 6))]
    } else if b.len() == 1 {
        let g = group3(b[0], 0, 0);
        seq![b64_char(sextet(g, 18)), b64_char(sextet(g, 12))]
    } else {
        Seq::empty()
    }
}

/// Filename of a proof: its base64url encoding followed by `.vsf`.
pub open spec fn spec_proof_to_filename(proof: Seq<u8>) -> Seq<char> {
    spec_base64url(proof) + ".vsf"@
}

// ---------------------------------------------------------------------------
// Implementation
// ---------------------------------------------------------------------------

/// Calls `vsf::types::VsfType::x(..).flatten()` on the handle text. Claimed:
/// the bytes are a function of the text alone (the encoder NFC-normalizes
/// and Huffman-codes with a fixed codebook).
#[verifier::external_body]
fn vsf_text_bytes(text: &str) -> (r: Vec<u8>)
    ensures
        r@ == spec_vsf_text(text@),
{
    vsf::types::VsfType::x(text.to_string()).flatten()
}

/// Copy the chunk at `pos` out of the buffer.
fn read_chunk(scratch: &Vec<u8>, pos: usize) -> (r: [u8; 32])
    requires
        pos + 32 <= scratch@.len(),
    ensures
        r@ == scratch@.subrange(pos as int, pos + 32),
{
    let mut r = [0u8; 32];
    let n = scratch.len();
    let mut j: usize = 0;
    while j < 32
        invariant
            j <= 32,
            n == scratch@.len(),
            pos + 32 <= scratch@.len(),
            forall|t: int| 0 <= t < j ==> r@[t] == scratch@[pos + t],
        decreases 32 - j,
    {
        r[j] = scratch[pos + j];
        j = j + 1;
    }
    assert(r@ =~= scratch@.subrange(pos as int, pos + 32));
    r
}

/// Write `chunk` into the buffer at `pos`.
fn write_chunk(scratch: &mut Vec<u8>, pos: usize, chunk: &[u8; 32])
    requires
        pos + 32 <= old(scratch)@.len(),
    ensures
        final(scratch)@ == old(scratch)@.subrange(0, pos as int) + chunk@ + old(scratch)@.subrange(
            pos + 32,
            old(scratch)@.len() as int,
        ),
{
    let ghost before = scratch@;
    let n = scratch.len();
    let mut j: usize = 0;
    while j < 32
        invariant
            j <= 32,
            n == scratch@.len(),
            pos + 32 <= before.len(),
            scratch@.len() == before.len(),
            forall|t: int| 0 <= t < pos ==> scratch@[t] == before[t],
            forall|t: int| pos + 32 <= t < before.len() ==> scratch@[t] == before[t],
            forall|t: int| 0 <= t < j ==> scratch@[pos + t] == chunk@[t],
        decreases 32 - j,
    {
        scratch.set(pos + j, chunk[j]);
        j = j + 1;
    }
    assert(scratch@ =~= before.subrange(0, pos as int) + chunk@ + before.subrange(
        pos + 32,
        before.len() as int,
    ));
}

proof fn lemma_prefix_len(round_hash: Seq<u8>, hash_num: Seq<u8>, fill: nat, k: nat)
    requires
        round_hash.len() == 32,
        k >= 1,
    ensures
        scratch_prefix(round_hash, hash_num, fill, k).len() == 32 * k,
    decreases k,
{
    if k > 1 {
        lemma_prefix_len(round_hash, hash_num, fill, (k - 1) as nat);
        let prev = scratch_prefix(round_hash, hash_num, fill, (k - 1) as nat);
        let cs: nat = 32 * (k - 1) as nat;
        if cs < fill {
            lemma_be_bytes_len(
                be_value(spec_blake3(prev.subrange(cs - 32, cs as int))) + be_value(hash_num) + (k
                    - 1) as nat,
                32,
            );
        } else {
            let read = be_value(prev.subrange(cs - 32, cs as int)) % ((cs - 32) as nat);
            lemma_be_bytes_len(
                be_value(spec_blake3(prev.subrange(read as int, (read + 32) as int))) + be_value(hash_num)
                    + cs,
                32,
            );
        }
    }
}

/// Phase 0 of a round: add the round number to the round hash (modulo
/// 2^256) and derive from the sum the length of the sequentially filled
/// prefix, 25% to 75% of the buffer in whole chunks.
pub fn round_setup(round_hash: &[u8; 32], round: usize) -> (r: ([u8; 32], usize))
    ensures
        r.0@ == spec_hash_num(round_hash@, round as nat),
        r.1 == spec_fill_size(r.0@),
{
    let round_word = u256_from_u128(round as u128);
    proof {
        lemma_be_small(round as nat);
    }
    let hash_num = u256_wrapping_add(round_hash, &round_word);
    let fill_size_raw = MIN_FILL + (u256_rem_u128(&hash_num, FILL_RANGE as u128) as usize);
    let fill_size = (fill_size_raw / CHUNK_SIZE) * CHUNK_SIZE;
    (hash_num, fill_size)
}

/// A new chunk: a hash plus the mixed round hash plus the chunk's position,
/// modulo 2^256, big-endian.
pub fn mix_chunk(hash: &[u8; 32], hash_num: &[u8; 32], pos: usize) -> (r: [u8; 32])
    ensures
        r@ == be_bytes(be_value(hash@) + be_value(hash_num@) + pos as nat, 32),
{
    let t = u256_wrapping_add(hash, hash_num);
    let pos_word = u256_from_u128(pos as u128);
    proof {
        lemma_be_add(be_value(hash@) + be_value(hash_num@), pos as nat);
        lemma_be_small(pos as nat);
    }
    u256_wrapping_add(&t, &pos_word)
}

/// One round of the proof-of-work: fill the buffer from `round_hash` and
/// hash it whole.
fn proof_round(scratch: &mut Vec<u8>, round_hash: &[u8; 32], round: usize) -> (r: [u8; 32])
    requires
        old(scratch)@.len() == SIZE,
        round < ROUNDS,
    ensures
        final(scratch)@.len() == SIZE,
        r@ == spec_blake3(spec_scratch(round_hash@, round as nat)),
{
    let ghost h = round_hash@;
    let (hash_num, fill_size) = round_setup(round_hash, round);
    let ghost hn = hash_num@;
    let ghost fill = fill_size as nat;
    proof {
        lemma_fill_bounds(hn);
    }
    // Phase 1: sequential hash chain over the filled prefix.
    write_chunk(scratch, 0, round_hash);
    proof {
        assert(scratch@.subrange(0, 32) =~= scratch_prefix(h, hn, fill, 1));
    }
    let chunks = fill_size / CHUNK_SIZE;
    let mut i: usize = 1;
    while i < chunks
        invariant
            1 <= i <= chunks,
            chunks == fill / 32,
            fill == spec_fill_size(hn),
            MIN_FILL <= fill <= MAX_FILL,
            fill % 32 == 0,
            hash_num@ == hn,
            h.len() == 32,
            scratch@.len() == SIZE,
            scratch@.subrange(0, 32 * i) == scratch_prefix(h, hn, fill, i as nat),
        decreases chunks - i,
    {
        let prev_start = (i - 1) * CHUNK_SIZE;
        let curr_start = i * CHUNK_SIZE;
        let ghost prev = scratch_prefix(h, hn, fill, i as nat);
        proof {
            lemma_prefix_len(h, hn, fill, i as nat);
            assert(scratch@.subrange(prev_start as int, prev_start + 32) =~= prev.subrange(
                prev_start as int,
                prev_start + 32,
            ));
        }
        let prev_hash = blake3_bytes(&scratch.as_slice()[prev_start..prev_start + CHUNK_SIZE]);
        let out = mix_chunk(&prev_hash, &hash_num, i);
        assert(out@ == next_chunk(prev, hn, fill, i as nat));
        let ghost before = scratch@;
        write_chunk(scratch, curr_start, &out);
        proof {
            assert(scratch@.subrange(0, 32 * (i + 1)) =~= before.subrange(0, 32 * i) + out@);
        }
        i = i + 1;
    }
    // Phase 2: data-dependent reads from earlier in the buffer.
    let mut curr_start = fill_size;
    while curr_start + CHUNK_SIZE <= SIZE
        invariant
            fill <= curr_start <= SIZE,
            curr_start % 32 == 0,
            fill == spec_fill_size(hn),
            MIN_FILL <= fill <= MAX_FILL,
            fill % 32 == 0,
            hash_num@ == hn,
            h.len() == 32,
            scratch@.len() == SIZE,
            scratch@.subrange(0, curr_start as int) == scratch_prefix(
                h,
                hn,
                fill,
                (curr_start / 32) as nat,
            ),
        decreases SIZE - curr_start,
    {
        let k = curr_start / CHUNK_SIZE;
        let ghost prev = scratch_prefix(h, hn, fill, k as nat);
        proof {
            lemma_prefix_len(h, hn, fill, k as nat);
        }
        let prev_chunk = read_chunk(scratch, curr_start - CHUNK_SIZE);
        assert(prev_chunk@ =~= prev.subrange(curr_start - 32, curr_start as int));
        let read_idx = u256_rem_u128(&prev_chunk, (curr_start - CHUNK_SIZE) as u128) as usize;
        assert(scratch@.subrange(read_idx as int, read_idx + 32) =~= prev.subrange(
            read_idx as int,
            read_idx + 32,
        ));
        let prev_hash = blake3_bytes(&scratch.as_slice()[read_idx..read_idx + CHUNK_SIZE]);
        let new_val = mix_chunk(&prev_hash, &hash_num, curr_start);
        assert(new_val@ == next_chunk(prev, hn, fill, k as nat));
        let ghost before = scratch@;
        write_chunk(scratch, curr_start, &new_val);
        proof {
            assert(scratch@.subrange(0, curr_start + 32) =~= before.subrange(0, curr_start as int)
                + new_val@);
            assert((curr_start + 32) / 32 == k + 1);
        }
        curr_start = curr_start + CHUNK_SIZE;
    }
    assert(curr_start == SIZE);
    assert(scratch@ =~= scratch@.subrange(0, SIZE as int));
    blake3_bytes(scratch.as_slice())
}

/// Memory-hard sequential proof-of-work over a handle hash: 17 rounds, each
/// filling a 24 MB buffer with a sequential hash chain over a hash-chosen
/// 25-75% prefix and data-dependent reads over the rest, then hashing the
/// whole buffer into the next round's hash. The same hash always gives the
/// same proof.
pub fn handle_proof(hash: &[u8; 32]) -> (r: [u8; 32])
    ensures
        r@ == spec_handle_proof(hash@),
        r@ == spec_proof_rounds(hash@, 17),
{
    let mut scratch: Vec<u8> = vec![0u8; SIZE];
    let mut round_hash: [u8; 32] = *hash;
    let mut round: usize = 0;
    while round < ROUNDS
        invariant
            round <= ROUNDS,
            scratch@.len() == SIZE,
            round_hash@ == spec_proof_rounds(hash@, round as nat),
        decreases ROUNDS - round,
    {
        round_hash = proof_round(&mut scratch, &round_hash, round);
        round = round + 1;
    }
    round_hash
}

/// Canonical handle hash: `BLAKE3` of the handle's VSF text encoding, which
/// NFC-normalizes it, so equivalent spellings of the same text agree.
pub fn handle_to_hash(handle: &str) -> (r: [u8; 32])
    ensures
        r@ == spec_handle_to_hash(handle@),
{
    let vsf_bytes = vsf_text_bytes(handle);
    blake3_bytes(vsf_bytes.as_slice())
}

/// The public proof of a plaintext handle: [`handle_to_hash`] then
/// [`handle_proof`].
pub fn handle_to_proof(handle: &str) -> (r: [u8; 32])
    ensures
        r@ == spec_handle_to_proof(handle@),
        r@ == spec_handle_proof(spec_handle_to_hash(handle@)),
        r@ == spec_proof_rounds(spec_blake3(spec_vsf_text(handle@)), 17),
{
    handle_proof(&handle_to_hash(handle))
}

/// Calls `String::push`. Claimed: `c` is appended to the string.
#[verifier::external_body]
fn push_char(s: &mut String, c: char)
    ensures
        final(s)@ == old(s)@.push(c),
{
    s.push(c)
}

/// The base64url character of a 6-bit value.
fn b64_digit(v: u32) -> (c: char)
    requires
        v < 64,
    ensures
        c == b64_char(v as nat),
{
    if v < 26 {
        (v as u8 + 65) as char
    } else if v < 52 {
        (v as u8 - 26 + 97) as char
    } else if v < 62 {
        (v as u8 - 52 + 48) as char
    } else if v == 62 {
        '-'
    } else {
        '_'
    }
}

/// Encode a proof as a base64url filename (RFC 4648 URL-safe alphabet, no
/// padding: 32 bytes give 43 characters) followed by `.vsf`.
pub fn proof_to_filename(proof: &[u8; 32]) -> (r: String)
    ensures
        r@ == spec_proof_to_filename(proof@),
{
    let bytes = proof;
    let ghost b = proof@;
    let mut encoded = String::new();
    let mut i: usize = 0;
    assert(b.subrange(0, 32) =~= b);
    assert(encoded@ + spec_base64url(b) =~= spec_base64url(b));
    while i + 3 <= 32
        invariant
            i <= 32,
            i % 3 == 0,
            b == bytes@,
            encoded@ + spec_base64url(b.subrange(i as int, 32)) == spec_base64url(b),
        decreases 32 - i,
    {
        let chunk = (bytes[i] as u32) << 16 | (bytes[i + 1] as u32) << 8 | (bytes[i + 2] as u32);
        let ghost rest = b.subrange(i as int, 32);
        assert(chunk == group3(rest[0], rest[1], rest[2]));
        assert(rest.subrange(3, rest.len() as int) =~= b.subrange(i + 3, 32));
        assert((chunk >> 18) & 0x3F < 64 && (chunk >> 12) & 0x3F < 64 && (chunk >> 6) & 0x3F < 64
            && chunk & 0x3F < 64 && chunk & 0x3F == (chunk >> 0u32) & 0x3F) by (bit_vector);
        let ghost before = encoded@;
        push_char(&mut encoded, b64_digit((chunk >> 18) & 0x3F));
        push_char(&mut encoded, b64_digit((chunk >> 12) & 0x3F));
        push_char(&mut encoded, b64_digit((chunk >> 6) & 0x3F));
        push_char(&mut encoded, b64_digit(chunk & 0x3F));
        assert(encoded@ =~= before + seq![
            b64_char(sextet(chunk, 18)),
            b64_char(sextet(chunk, 12)),
            b64_char(sextet(chunk, 6)),
            b64_char(sextet(chunk, 0)),
        ]);
        i += 3;
    }
    if i < 32 {
        let rem = 32 - i;
        let mut chunk = (bytes[i] as u32) << 16;
        if rem == 2 {
            chunk |= (bytes[i + 1] as u32) << 8;
        }
        let ghost rest = b.subrange(i as int, 32);
        assert(rest.len() == 2);
        let ghost x0 = rest[0];
        let ghost x1 = rest[1];
        assert(chunk == group3(x0, x1, 0)) by (bit_vector)
            requires
                chunk == ((x0 as u32) << 16) | ((x1 as u32) << 8),
        ;
        assert((chunk >> 18) & 0x3F < 64 && (chunk >> 12) & 0x3F < 64 && (chunk >> 6) & 0x3F < 64)
            by (bit_vector);
        let ghost before = encoded@;
        push_char(&mut encoded, b64_digit((chunk >> 18) & 0x3F));
        push_char(&mut encoded, b64_digit((chunk >> 12) & 0x3F));
        if rem == 2 {
            push_char(&mut encoded, b64_digit((chunk >> 6) & 0x3F));
        }
        assert(encoded@ =~= before + spec_base64url(rest));
        assert(encoded@ =~= spec_base64url(b));
    }
    encoded.append(".vsf");
    encoded
}

/// Filename of a plaintext handle: [`proof_to_filename`] of
/// [`handle_to_proof`]. Runs the full proof-of-work.
pub fn handle_to_filename(handle: &str) -> (r: String)
    ensures
        r@ == spec_proof_to_filename(spec_handle_to_proof(handle@)),
        r@ == spec_proof_to_filename(spec_proof_rounds(spec_blake3(spec_vsf_text(handle@)), 17)),
{
    proof_to_filename(&handle_to_proof(handle))
}

// ---------------------------------------------------------------------------
// Laws
// ---------------------------------------------------------------------------

/// The proof-of-work runs exactly 17 rounds: the proof is the round hash
/// after the 17th round, which is BLAKE3 of the buffer that the 17th round
/// (round index 16) fills from the 16th round hash.
pub proof fn lemma_proof_runs_17_rounds(hash: Seq<u8>)
    ensures
        spec_handle_proof(hash) == spec_proof_rounds(hash, 17),
        spec_handle_proof(hash) == spec_blake3(spec_scratch(spec_proof_rounds(hash, 16), 16)),
{
}

/// The public proof of a handle is the proof-of-work of its canonical hash
/// (BLAKE3 of its VSF text encoding), run for all 17 rounds.
pub proof fn lemma_handle_proof_pipeline(handle: Seq<char>)
    ensures
        spec_handle_to_proof(handle) == spec_handle_proof(spec_handle_to_hash(handle)),
        spec_handle_to_proof(handle) == spec_proof_rounds(spec_blake3(spec_vsf_text(handle)), 17),
{
}

/// Every round fills between 25% and 75% of the buffer sequentially, in
/// whole chunks, whatever the round hash.
pub proof fn lemma_fill_bounds(hash_num: Seq<u8>)
    ensures
        MIN_FILL <= spec_fill_size(hash_num) < MAX_FILL,
        spec_fill_size(hash_num) % 32 == 0,
{
}

/// The RFC 4648 base64url alphabet.
pub open spec fn base64url_alphabet() -> Seq<char> {
    "ABCDEFGHIJKLMNOPQRSTUVWXYZabcdefghijklmnopqrstuvwxyz0123456789-_"@
}

/// `b64_char` is the RFC 4648 base64url alphabet, character for character.
pub proof fn lemma_b64_char_is_rfc4648(v: nat)
    requires
        v < 64,
    ensures
        b64_char(v) == base64url_alphabet()[v as int],
{
    reveal_strlit("ABCDEFGHIJKLMNOPQRSTUVWXYZabcdefghijklmnopqrstuvwxyz0123456789-_");
    if v == 0 {
    } else if v == 1 {
    } else if v == 2 {
    } else if v == 3 {
    } else if v == 4 {
    } else if v == 5 {
    } else if v == 6 {
    } else if v == 7 {
    } else if v == 8 {
    } else if v == 9 {
    } else if v == 10 {
    } else if v == 11 {
    } else if v == 12 {
    } else if v == 13 {
    } else if v == 14 {
    } else if v == 15 {
    } else if v == 16 {
    } else if v == 17 {
    } else if v == 18 {
    } else if v == 19 {
    } else if v == 20 {
    } else if v == 21 {
    } else if v == 22 {
    } else if v == 23 {
    } else if v == 24 {
    } else if v == 25 {
    } else if v == 26 {
    } else if v == 27 {
    } else if v == 28 {
    } else if v == 29 {
    } else if v == 30 {
    } else if v == 31 {
    } else if v == 32 {
    } else if v == 33 {
    } else if v == 34 {
    } else if v == 35 {
    } else if v == 36 {
    } else if v == 37 {
    } else if v == 38 {
    } else if v == 39 {
    } else if v == 40 {
    } else if v == 41 {
    } else if v == 42 {
    } else if v == 43 {
    } else if v == 44 {
    } else if v == 45 {
    } else if v == 46 {
    } else if v == 47 {
    } else if v == 48 {
    } else if v == 49 {
    } else if v == 50 {
    } else if v == 51 {
    } else if v == 52 {
    } else if v == 53 {
    } else if v == 54 {
    } else if v == 55 {
    } else if v == 56 {
    } else if v == 57 {
    } else if v == 58 {
    } else if v == 59 {
    } else if v == 60 {
    } else if v == 61 {
    } else if v == 62 {
    } else {
    }
}

/// The sextets of a byte group, as arithmetic on its 24-bit value.
proof fn lemma_sextets_arith(x: u8, y: u8, z: u8)
    by (bit_vector)
    ensures
        sextet(group3(x, y, z), 18) == (x * 0x1_0000 + y * 0x100 + z) / 0x4_0000,
        sextet(group3(x, y, z), 12) == ((x * 0x1_0000 + y * 0x100 + z) / 0x1000) % 64,
        sextet(group3(x, y, z), 6) == ((x * 0x1_0000 + y * 0x100 + z) / 0x40) % 64,
        sextet(group3(x, y, z), 0) == (x * 0x1_0000 + y * 0x100 + z) % 64,
{
}

/// Characters `4j..4j+4` of the encoding come from bytes `3j..3j+3`.
proof fn lemma_base64url_group(b: Seq<u8>, j: int)
    requires
        0 <= j,
        3 * j + 3 <= b.len(),
    ensures
        spec_base64url(b)[4 * j] == b64_char(sextet(group3(b[3 * j], b[3 * j + 1], b[3 * j + 2]), 18)),
        spec_base64url(b)[4 * j + 1] == b64_char(sextet(group3(b[3 * j], b[3 * j + 1], b[3 * j + 2]), 12)),
        spec_base64url(b)[4 * j + 2] == b64_char(sextet(group3(b[3 * j], b[3 * j + 1], b[3 * j + 2]), 6)),
        spec_base64url(b)[4 * j + 3] == b64_char(sextet(group3(b[3 * j], b[3 * j + 1], b[3 * j + 2]), 0)),
    decreases j,
{
    let rest = b.subrange(3, b.len() as int);
    let g = group3(b[0], b[1], b[2]);
    let head = seq![
        b64_char(sextet(g, 18)),
        b64_char(sextet(g, 12)),
        b64_char(sextet(g, 6)),
        b64_char(sextet(g, 0)),
    ];
    assert(spec_base64url(b) == head + spec_base64url(rest));
    if j > 0 {
        lemma_base64url_group(rest, j - 1);
        lemma_base64url_len(rest);
        assert(rest[3 * (j - 1)] == b[3 * j] && rest[3 * (j - 1) + 1] == b[3 * j + 1] && rest[3 * (j
            - 1) + 2] == b[3 * j + 2]);
    }
}

/// The last three characters of the encoding of 32 bytes come from the two
/// leftover bytes.
proof fn lemma_base64url_tail(b: Seq<u8>, j: int)
    requires
        0 <= j,
        b.len() == 3 * j + 2,
    ensures
        spec_base64url(b)[4 * j] == b64_char(sextet(group3(b[3 * j], b[3 * j + 1], 0), 18)),
        spec_base64url(b)[4 * j + 1] == b64_char(sextet(group3(b[3 * j], b[3 * j + 1], 0), 12)),
        spec_base64url(b)[4 * j + 2] == b64_char(sextet(group3(b[3 * j], b[3 * j + 1], 0), 6)),
    decreases j,
{
    if j > 0 {
        let rest = b.subrange(3, b.len() as int);
        let g = group3(b[0], b[1], b[2]);
        let head = seq![
            b64_char(sextet(g, 18)),
            b64_char(sextet(g, 12)),
            b64_char(sextet(g, 6)),
            b64_char(sextet(g, 0)),
        ];
        assert(spec_base64url(b) == head + spec_base64url(rest));
        lemma_base64url_tail(rest, j - 1);
        lemma_base64url_len(rest);
        assert(rest[3 * (j - 1)] == b[3 * j] && rest[3 * (j - 1) + 1] == b[3 * j + 1]);
    } else {
        let g = group3(b[0], b[1], 0);
        assert(spec_base64url(b) == seq![
            b64_char(sextet(g, 18)),
            b64_char(sextet(g, 12)),
            b64_char(sextet(g, 6)),
        ]);
    }
}

/// Layout of a proof's filename, stated with the RFC 4648 base64url alphabet
/// and plain arithmetic: for each of the ten whole groups, the 24-bit value
/// `p[3j]·2^16 + p[3j+1]·2^8 + p[3j+2]` is written as four characters, most
/// significant 6 bits first; the last two bytes give three characters, as if
/// followed by a zero byte; then `.vsf`. A standard base64url decoder reads
/// the 43 characters back as `p`.
pub proof fn lemma_proof_filename_layout(p: Seq<u8>)
    requires
        p.len() == 32,
    ensures
        spec_proof_to_filename(p).len() == 47,
        forall|j: int|
            0 <= j < 10 ==> {
                let g = p[3 * j] * 0x1_0000 + p[3 * j + 1] * 0x100 + p[3 * j + 2];
                &&& #[trigger] spec_proof_to_filename(p)[4 * j] == base64url_alphabet()[g / 0x4_0000]
                &&& spec_proof_to_filename(p)[4 * j + 1] == base64url_alphabet()[(g / 0x1000) % 64]
                &&& spec_proof_to_filename(p)[4 * j + 2] == base64url_alphabet()[(g / 0x40) % 64]
                &&& spec_proof_to_filename(p)[4 * j + 3] == base64url_alphabet()[g % 64]
            },
        spec_proof_to_filename(p)[40] == base64url_alphabet()[(p[30] * 0x1_0000 + p[31] * 0x100)
            / 0x4_0000],
        spec_proof_to_filename(p)[41] == base64url_alphabet()[((p[30] * 0x1_0000 + p[31] * 0x100)
            / 0x1000) % 64],
        spec_proof_to_filename(p)[42] == base64url_alphabet()[((p[30] * 0x1_0000 + p[31] * 0x100)
            / 0x40) % 64],
        spec_proof_to_filename(p).subrange(43, 47) == ".vsf"@,
{
    let f = spec_proof_to_filename(p);
    let e = spec_base64url(p);
    lemma_base64url_len(p);
    reveal_strlit(".vsf");
    assert(f.subrange(43, 47) =~= ".vsf"@);
    assert forall|j: int| 0 <= j < 10 implies {
        let g = p[3 * j] * 0x1_0000 + p[3 * j + 1] * 0x100 + p[3 * j + 2];
        &&& #[trigger] f[4 * j] == base64url_alphabet()[g / 0x4_0000]
        &&& f[4 * j + 1] == base64url_alphabet()[(g / 0x1000) % 64]
        &&& f[4 * j + 2] == base64url_alphabet()[(g / 0x40) % 64]
        &&& f[4 * j + 3] == base64url_alphabet()[g % 64]
    } by {
        let x = p[3 * j];
        let y = p[3 * j + 1];
        let z = p[3 * j + 2];
        let gg = group3(x, y, z);
        lemma_base64url_group(p, j);
        lemma_sextets_arith(x, y, z);
        assert(sextet(gg, 18) < 64 && sextet(gg, 12) < 64 && sextet(gg, 6) < 64 && sextet(gg, 0)
            < 64);
        lemma_b64_char_is_rfc4648(sextet(gg, 18));
        lemma_b64_char_is_rfc4648(sextet(gg, 12));
        lemma_b64_char_is_rfc4648(sextet(gg, 6));
        lemma_b64_char_is_rfc4648(sextet(gg, 0));
        assert(f[4 * j] == e[4 * j] && f[4 * j + 1] == e[4 * j + 1] && f[4 * j + 2] == e[4 * j + 2]
            && f[4 * j + 3] == e[4 * j + 3]);
    }
    let x = p[30];
    let y = p[31];
    let gg = group3(x, y, 0);
    lemma_base64url_tail(p, 10);
    lemma_sextets_arith(x, y, 0);
    assert(sextet(gg, 18) < 64 && sextet(gg, 12) < 64 && sextet(gg, 6) < 64);
    lemma_b64_char_is_rfc4648(sextet(gg, 18));
    lemma_b64_char_is_rfc4648(sextet(gg, 12));
    lemma_b64_char_is_rfc4648(sextet(gg, 6));
    assert(f[40] == e[40] && f[41] == e[41] && f[42] == e[42]);
}

/// Distinct 6-bit values have distinct base64url characters.
proof fn lemma_b64_char_injective(v: nat, w: nat)
    requires
        v < 64,
        w < 64,
        b64_char(v) == b64_char(w),
    ensures
        v == w,
{
}

/// The characters of a group determine its bytes.
proof fn lemma_group_injective(a0: u8, a1: u8, a2: u8, b0: u8, b1: u8, b2: u8, n: nat)
    requires
        2 <= n <= 4,
        n <= 2 ==> a1 == 0 && b1 == 0,
        n <= 3 ==> a2 == 0 && b2 == 0,
        b64_char(sextet(group3(a0, a1, a2), 18)) == b64_char(sextet(group3(b0, b1, b2), 18)),
        b64_char(sextet(group3(a0, a1, a2), 12)) == b64_char(sextet(group3(b0, b1, b2), 12)),
        n >= 3 ==> b64_char(sextet(group3(a0, a1, a2), 6)) == b64_char(
            sextet(group3(b0, b1, b2), 6),
        ),
        n >= 4 ==> b64_char(sextet(group3(a0, a1, a2), 0)) == b64_char(
            sextet(group3(b0, b1, b2), 0),
        ),
    ensures
        a0 == b0 && a1 == b1 && a2 == b2,
{
    let ga = group3(a0, a1, a2);
    let gb = group3(b0, b1, b2);
    assert(sextet(ga, 18) < 64 && sextet(gb, 18) < 64 && sextet(ga, 12) < 64 && sextet(gb, 12) < 64
        && sextet(ga, 6) < 64 && sextet(gb, 6) < 64 && sextet(ga, 0) < 64 && sextet(gb, 0) < 64)
        by (bit_vector);
    lemma_b64_char_injective(sextet(ga, 18), sextet(gb, 18));
    lemma_b64_char_injective(sextet(ga, 12), sextet(gb, 12));
    if n >= 3 {
        lemma_b64_char_injective(sextet(ga, 6), sextet(gb, 6));
    }
    if n >= 4 {
        lemma_b64_char_injective(sextet(ga, 0), sextet(gb, 0));
    }
    let m: u32 = n as u32;
    assert(a0 == b0 && a1 == b1 && a2 == b2) by (bit_vector)
        requires
            ga == ((a0 as u32) << 16u32) | ((a1 as u32) << 8u32) | (a2 as u32),
            gb == ((b0 as u32) << 16u32) | ((b1 as u32) << 8u32) | (b2 as u32),
            (ga >> 18u32) & 0x3F == (gb >> 18u32) & 0x3F,
            (ga >> 12u32) & 0x3F == (gb >> 12u32) & 0x3F,
            m >= 3 ==> (ga >> 6u32) & 0x3F == (gb >> 6u32) & 0x3F,
            m >= 4 ==> (ga >> 0u32) & 0x3F == (gb >> 0u32) & 0x3F,
            m <= 2 ==> a1 == 0 && b1 == 0,
            m <= 3 ==> a2 == 0 && b2 == 0,
    ;
}

/// Length of the encoding: four characters per whole group, plus three for
/// two leftover bytes or two for one.
pub proof fn lemma_base64url_len(b: Seq<u8>)
    ensures
        spec_base64url(b).len() == 4 * (b.len() / 3) + (if b.len() % 3 == 0 {
            0int
        } else {
            (b.len() % 3 + 1) as int
        }),
    decreases b.len(),
{
    if b.len() >= 3 {
        lemma_base64url_len(b.subrange(3, b.len() as int));
    }
}

/// Base64url without padding is unambiguous: equal encodings of equally
/// long byte strings come from equal bytes.
pub proof fn lemma_base64url_injective(a: Seq<u8>, b: Seq<u8>)
    requires
        a.len() == b.len(),
        spec_base64url(a) == spec_base64url(b),
    ensures
        a == b,
    decreases a.len(),
{
    let ea = spec_base64url(a);
    let eb = spec_base64url(b);
    if a.len() >= 3 {
        let ra = a.subrange(3, a.len() as int);
        let rb = b.subrange(3, b.len() as int);
        let ga = group3(a[0], a[1], a[2]);
        let gb = group3(b[0], b[1], b[2]);
        let ha = seq![
            b64_char(sextet(ga, 18)),
            b64_char(sextet(ga, 12)),
            b64_char(sextet(ga, 6)),
            b64_char(sextet(ga, 0)),
        ];
        let hb = seq![
            b64_char(sextet(gb, 18)),
            b64_char(sextet(gb, 12)),
            b64_char(sextet(gb, 6)),
            b64_char(sextet(gb, 0)),
        ];
        assert(ea == ha + spec_base64url(ra));
        assert(eb == hb + spec_base64url(rb));
        assert(ea[0] == ha[0] && ea[1] == ha[1] && ea[2] == ha[2] && ea[3] == ha[3]);
        assert(eb[0] == hb[0] && eb[1] == hb[1] && eb[2] == hb[2] && eb[3] == hb[3]);
        lemma_group_injective(a[0], a[1], a[2], b[0], b[1], b[2], 4);
        assert(ea.subrange(4, ea.len() as int) =~= spec_base64url(ra));
        assert(eb.subrange(4, eb.len() as int) =~= spec_base64url(rb));
        lemma_base64url_injective(ra, rb);
        assert forall|i: int| 3 <= i < a.len() implies a[i] == b[i] by {
            assert(a[i] == ra[i - 3] && b[i] == rb[i - 3]);
        }
        assert(a =~= b);
    } else if a.len() == 2 {
        assert(ea[0] == eb[0] && ea[1] == eb[1] && ea[2] == eb[2]);
        lemma_group_injective(a[0], a[1], 0, b[0], b[1], 0, 3);
        assert(a =~= b);
    } else if a.len() == 1 {
        assert(ea[0] == eb[0] && ea[1] == eb[1]);
        lemma_group_injective(a[0], 0, 0, b[0], 0, 0, 2);
        assert(a =~= b);
    } else {
        assert(a =~= b);
    }
}

/// A proof's filename is 43 base64url characters then `.vsf`, and it names
/// the proof unambiguously: distinct proofs have distinct filenames.
pub proof fn lemma_proof_filename_unambiguous(p: Seq<u8>, q: Seq<u8>)
    requires
        p.len() == 32,
        q.len() == 32,
    ensures
        spec_base64url(p).len() == 43,
        spec_proof_to_filename(p).len() == 47,
        spec_proof_to_filename(p) == spec_proof_to_filename(q) ==> p == q,
{
    lemma_base64url_len(p);
    lemma_base64url_len(q);
    reveal_strlit(".vsf");
    if spec_proof_to_filename(p) == spec_proof_to_filename(q) {
        assert(spec_base64url(p) =~= spec_proof_to_filename(p).subrange(0, 43));
        assert(spec_base64url(q) =~= spec_proof_to_filename(q).subrange(0, 43));
        lemma_base64url_injective(p, q);
    }
}

} // verus!
