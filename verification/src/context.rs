use vstd::bytes::{spec_u64_to_le_bytes, u64_to_le_bytes};
use vstd::prelude::*;
use vstd::slice::slice_to_vec;
use vstd::utf8::encode_utf8;

use crate::rng::{blake3_hash, hash};

verus! {

/// What a contribution is made to: the ceremony, the number of the contribution in it, and the
/// circuit. Contributors sign its hash.
#[derive(Clone, Debug, PartialEq, Eq)]
pub struct ContributionContext {
    pub ceremony_id: String,
    pub index: u64,
    pub circuit_id: String,
}

/// The bytes of a text behind their number.
pub open spec fn text_bytes(text: Seq<char>) -> Seq<u8> {
    spec_u64_to_le_bytes(encode_utf8(text).len() as u64) + encode_utf8(text)
}

fn append_text(text: &str, out: &mut Vec<u8>)
    ensures
        final(out)@ == old(out)@ + text_bytes(text@),
{
    let ghost before = out@;
    let mut bytes = slice_to_vec(text.as_bytes());
    let mut length = u64_to_le_bytes(bytes.len() as u64);
    out.append(&mut length);
    out.append(&mut bytes);
    proof {
        assert(out@ =~= before + text_bytes(text@));
    }
}

impl ContributionContext {
    pub fn new(ceremony_id: &str, index: u64, circuit_id: &str) -> (res: Self)
        ensures
            res.ceremony_id@ == ceremony_id@,
            res.index == index,
            res.circuit_id@ == circuit_id@,
    {
        ContributionContext {
            ceremony_id: ceremony_id.to_owned(),
            index,
            circuit_id: circuit_id.to_owned(),
        }
    }

    /// What is hashed for signing.
    pub open spec fn signed_bytes(self) -> Seq<u8> {
        text_bytes(self.ceremony_id@) + spec_u64_to_le_bytes(self.index) + text_bytes(
            self.circuit_id@,
        )
    }

    /// The hash that is signed.
    pub open spec fn digest(self) -> Seq<u8> {
        blake3_hash(self.signed_bytes())
    }

    /// The message to sign.
    pub fn message(&self) -> (res: [u8; 32])
        ensures
            res@ == self.digest(),
    {
        let mut bytes: Vec<u8> = Vec::new();
        append_text(self.ceremony_id.as_str(), &mut bytes);
        let mut index = u64_to_le_bytes(self.index);
        bytes.append(&mut index);
        append_text(self.circuit_id.as_str(), &mut bytes);
        proof {
            assert(bytes@ =~= self.signed_bytes());
        }
        hash(&bytes)
    }
}

} // verus!
