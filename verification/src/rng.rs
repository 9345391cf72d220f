use vstd::prelude::*;

verus! {

/// What `blake3::hash` gives.
pub uninterp spec fn blake3_hash(bytes: Seq<u8>) -> Seq<u8>;

/// `blake3::hash`: a function of the bytes.
#[verifier::external_body]
pub(crate) fn hash(bytes: &[u8]) -> (res: [u8; 32])
    ensures
        res@ == blake3_hash(bytes@),
{
    *blake3::hash(bytes).as_bytes()
}

/// A ChaCha20 random number generator, held by its seed and by its position in the key stream,
/// counted in 32-bit words.
#[derive(Clone, Copy, Debug, PartialEq, Eq)]
pub struct SeededRng {
    pub seed: [u8; 32],
    pub position: u128,
}

impl SeededRng {
    /// The generator at the start of the key stream of `seed`.
    pub fn from_seed(seed: [u8; 32]) -> (res: SeededRng)
        ensures
            res == (SeededRng { seed, position: 0 }),
    {
        SeededRng { seed, position: 0 }
    }
}

} // verus!
