//! Spaghettify: arbitrary-length input to 32 bytes, through BLAKE3-XOF
//! absorption, the chaos amplifier and the hash smear.
use vstd::prelude::*;

use crate::chaos_amp::{chaos_amp, spec_chaos_amp};
use crate::hashes::{blake3_xof64, spec_blake3_xof64};
use crate::smear::{part_views, smear_hash_parts, spec_smear_hash};

verus! {

/// `smear(chaos_amp(blake3_xof64(input)) ‖ input)`.
pub open spec fn spec_spaghettify(input: Seq<u8>) -> Seq<u8> {
    spec_smear_hash(spec_chaos_amp(spec_blake3_xof64(input)) + input)
}

/// Spaghettify `input`: absorb it into 64 bytes with the BLAKE3 XOF, run the
/// chaos amplifier, then smear the 48-byte chaos state followed by the
/// input itself.
pub fn spaghettify(input: &[u8]) -> (r: [u8; 32])
    ensures
        r@ == spec_spaghettify(input@),
{
    let block = blake3_xof64(input);
    let chaos_state = chaos_amp(&block);
    let parts: [&[u8]; 2] = [chaos_state.as_slice(), input];
    let r = smear_hash_parts(parts.as_slice());
    proof {
        let v = part_views(parts@);
        assert(v =~= Seq::<Seq<u8>>::empty().push(chaos_state@).push(input@));
        Seq::<Seq<u8>>::empty().lemma_flatten_push(chaos_state@);
        Seq::<Seq<u8>>::empty().push(chaos_state@).lemma_flatten_push(input@);
        assert(Seq::<Seq<u8>>::empty().flatten() =~= Seq::<u8>::empty());
        assert(v.flatten() =~= chaos_state@ + input@);
    }
    r
}

} // verus!
