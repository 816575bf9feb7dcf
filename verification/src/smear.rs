//! Defense-in-depth hash smear: BLAKE3 ⊕ SHA3-256 ⊕ SHA-512 (first 32 bytes).
use vstd::prelude::*;

use crate::hashes::{blake3_bytes, sha3_256, sha512, spec_blake3, spec_sha3_256, spec_sha512};

verus! {

/// Byte-wise XOR of BLAKE3, SHA3-256 and the first 32 bytes of SHA-512 of `data`.
pub open spec fn spec_smear_hash(data: Seq<u8>) -> Seq<u8> {
    Seq::new(
        32,
        |i: int| spec_blake3(data)[i] ^ spec_sha3_256(data)[i] ^ spec_sha512(data)[i],
    )
}

/// The views of a list of byte slices.
pub open spec fn part_views(parts: Seq<&[u8]>) -> Seq<Seq<u8>> {
    parts.map_values(|p: &[u8]| p@)
}

/// Multi-algorithm hash smear of `data`: the output stays strong if any one
/// of the three hash constructions does.
pub fn smear_hash(data: &[u8]) -> (r: [u8; 32])
    ensures
        r@ == spec_smear_hash(data@),
{
    let parts: [&[u8]; 1] = [data];
    let r = smear_hash_parts(parts.as_slice());
    proof {
        let v = part_views(parts@);
        assert(v =~= seq![data@]);
        assert(seq![data@] =~= Seq::<Seq<u8>>::empty().push(data@));
        Seq::<Seq<u8>>::empty().lemma_flatten_push(data@);
        assert(Seq::<Seq<u8>>::empty().flatten() =~= Seq::<u8>::empty());
        assert(v.flatten() =~= data@);
    }
    r
}

/// Smear hash over several slices fed one after the other: identical to
/// `smear_hash` of their concatenation.
pub fn smear_hash_parts(parts: &[&[u8]]) -> (r: [u8; 32])
    ensures
        r@ == spec_smear_hash(part_views(parts@).flatten()),
{
    let ghost views = part_views(parts@);
    let mut data: Vec<u8> = Vec::new();
    let mut k: usize = 0;
    while k < parts.len()
        invariant
            k <= parts@.len(),
            views == part_views(parts@),
            data@ == views.take(k as int).flatten(),
        decreases parts@.len() - k,
    {
        let p: &[u8] = parts[k];
        let ghost before = data@;
        let mut m: usize = 0;
        while m < p.len()
            invariant
                m <= p@.len(),
                data@ == before + p@.take(m as int),
            decreases p@.len() - m,
        {
            data.push(p[m]);
            m = m + 1;
            assert(data@ =~= before + p@.take(m as int));
        }
        proof {
            assert(p@.take(p@.len() as int) =~= p@);
            assert(views.take(k + 1) =~= views.take(k as int).push(p@));
            views.take(k as int).lemma_flatten_push(p@);
        }
        k = k + 1;
    }
    assert(views.take(parts@.len() as int) =~= views);
    let b3 = blake3_bytes(data.as_slice());
    let s3 = sha3_256(data.as_slice());
    let s512 = sha512(data.as_slice());
    let mut result = [0u8; 32];
    let mut i: usize = 0;
    while i < 32
        invariant
            i <= 32,
            b3@ == spec_blake3(data@),
            s3@ == spec_sha3_256(data@),
            s512@ == spec_sha512(data@),
            forall|j: int| 0 <= j < i ==> result@[j] == spec_smear_hash(data@)[j],
        decreases 32 - i,
    {
        result[i] = b3[i] ^ s3[i] ^ s512[i];
        i = i + 1;
    }
    assert(result@ =~= spec_smear_hash(data@));
    result
}

} // verus!
