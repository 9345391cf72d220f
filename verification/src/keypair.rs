use vstd::prelude::*;

use crate::canonical::{lemma_written, reads_back, Canonical, CanonicalModel};
use crate::curve::{Pairing, G1, G2};
use crate::error::Error;
use crate::key::{challenge_bytes, challenge_of};
use crate::ratio::RatioProof;

verus! {

/// The secret of a contribution.
pub type PrivateKey<E> = <E as Pairing>::ScalarField;

/// Public key for a contribution, including Ethereum signature for attribution.
#[derive(Clone, Debug, PartialEq)]
pub struct PublicKey<E: Pairing> {
    pub delta_g1: E::G1Affine,
    pub delta_g2: E::G2Affine,
    pub proof: RatioProof<E>,
    /// Ethereum address of the contributor (20 bytes)
    pub eth_address: [u8; 20],
    /// ECDSA signature over the contribution context (r: 32, s: 32, v: 1)
    pub eth_signature: [u8; 65],
}

/// The fields in the order in which they are written.
pub type PublicKeyParts<E> = (G1<E>, (G2<E>, (RatioProof<E>, ([u8; 20], [u8; 65]))));

impl<E: Pairing> CanonicalModel for PublicKey<E> {
    type Value = <PublicKeyParts<E> as CanonicalModel>::Value;

    open spec fn value_of(self) -> Self::Value {
        (
            self.delta_g1.value_of(),
            (
                self.delta_g2.value_of(),
                (
                    self.proof.value_of(),
                    (self.eth_address.value_of(), self.eth_signature.value_of()),
                ),
            ),
        )
    }

    open spec fn valid(value: Self::Value) -> bool {
        <PublicKeyParts<E> as CanonicalModel>::valid(value)
    }

    open spec fn encoding(value: Self::Value, compress: bool) -> Seq<u8> {
        <PublicKeyParts<E> as CanonicalModel>::encoding(value, compress)
    }

    open spec fn encoded_length(value: Self::Value, compress: bool) -> nat {
        <PublicKeyParts<E> as CanonicalModel>::encoded_length(value, compress)
    }

    open spec fn decoding(bytes: Seq<u8>, compress: bool, validate: bool) -> Result<
        (Self::Value, nat),
        Seq<char>,
    > {
        <PublicKeyParts<E> as CanonicalModel>::decoding(bytes, compress, validate)
    }
}

impl<E: Pairing> Canonical for PublicKey<E> {
    fn serialize_with_mode(&self, compress: bool, out: &mut Vec<u8>) -> (res: Result<(), String>) {
        let ghost before = out@;
        self.delta_g1.serialize_with_mode(compress, out)?;
        let ghost written_1 = out@;
        self.delta_g2.serialize_with_mode(compress, out)?;
        let ghost written_2 = out@;
        self.proof.serialize_with_mode(compress, out)?;
        let ghost written_3 = out@;
        self.eth_address.serialize_with_mode(compress, out)?;
        self.eth_signature.serialize_with_mode(compress, out)?;
        proof {
            lemma_written::<[u8; 20], [u8; 65]>(
                written_3,
                self.eth_address.value_of(),
                self.eth_signature.value_of(),
                compress,
            );
            let tail_3 = (self.eth_address.value_of(), self.eth_signature.value_of());
            lemma_written::<RatioProof<E>, ([u8; 20], [u8; 65])>(
                written_2,
                self.proof.value_of(),
                tail_3,
                compress,
            );
            let tail_2 = (self.proof.value_of(), tail_3);
            lemma_written::<G2<E>, (RatioProof<E>, ([u8; 20], [u8; 65]))>(
                written_1,
                self.delta_g2.value_of(),
                tail_2,
                compress,
            );
            let tail_1 = (self.delta_g2.value_of(), tail_2);
            lemma_written::<G1<E>, (G2<E>, (RatioProof<E>, ([u8; 20], [u8; 65])))>(
                before,
                self.delta_g1.value_of(),
                tail_1,
                compress,
            );
            assert(reads_back::<PublicKeyParts<E>>(self.value_of(), compress) ==> reads_back::<Self>(
                self.value_of(),
                compress,
            ));
        }
        Ok(())
    }

    fn deserialize_with_mode(bytes: &[u8], compress: bool, validate: bool) -> (res: Result<
        (Self, usize),
        String,
    >) {
        let read = <PublicKeyParts<E> as Canonical>::deserialize_with_mode(
            bytes,
            compress,
            validate,
        )?;
        let ((delta_g1, (delta_g2, (proof, (eth_address, eth_signature)))), length) = read;
        Ok((PublicKey { delta_g1, delta_g2, proof, eth_address, eth_signature }, length))
    }

    fn check(&self) -> (res: bool) {
        self.delta_g1.check() && self.delta_g2.check() && self.proof.check()
            && self.eth_address.check() && self.eth_signature.check()
    }
}

impl<E: Pairing> PublicKey<E> {
    /// What the next contributor is challenged with: the encodings of both deltas.
    pub fn challenge(&self) -> (res: Result<Vec<u8>, Error>)
        ensures
            res matches Ok(bytes) && bytes@ == challenge_bytes::<E>(self.delta_g1, self.delta_g2),
    {
        challenge_of::<E>(&self.delta_g1, &self.delta_g2)
    }
}

} // verus!
