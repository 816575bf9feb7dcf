# ihi

Identity primitives, verified with Verus.

- `src/chaos_amp.rs`, `src/chaos_amp/alu.rs`: the chaos amplifier (64 bytes
  to 48 bytes, 16 buckets of 24 bits, 16 rounds, a 32-op data-dependent ALU),
  proved equal to its specification, with the 24-bit state invariant, the
  absorption of every input bit and the losslessness of the output step;
  the lossless ops are injective for a fixed neighbour, and the GFMUL
  product satisfies the GF(2^8) field laws.
- `src/smear.rs`: BLAKE3 ⊕ SHA3-256 ⊕ SHA-512 over one slice or several.
- `src/spaghettify.rs`: BLAKE3-XOF absorption, chaos amplifier, smear.
- `src/keyring.rs`: fixed-depth sparse Merkle tree over a fleet's leaves;
  every member's inclusion proof verifies against the root.
- `src/handle.rs`: canonical handle hash, the 17-round memory-hard
  proof-of-work, and the base64url `.vsf` filename of a proof (unambiguous).
- `src/hashes.rs`, `src/wide.rs`: the calls into `blake3`, `sha2`, `sha3`
  and `i256`, each behind one wrapper with its contract.
- `app/lib.rs`: the handle functions over `blake3::Hash`.
