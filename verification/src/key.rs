use vstd::prelude::*;
use vstd::slice::slice_to_vec;
use vstd::std_specs::cmp::PartialEqSpecImpl;
use vstd::std_specs::convert::FromSpecImpl;

use crate::algebra::{have_full_orders, inverse_mod, lemma_inverse_mod};
use crate::canonical::{lemma_written, reads_back, Canonical, CanonicalModel};
use crate::curve::{
    multiple, AffineRepr, GroupModel, Pairing, PrimeField, ScalarModel, G1, G2,
};
use crate::error::Error;
use crate::laws::{law_contribution_stays_in_groups, law_contribution_transforms};
use crate::ratio::RatioProof;
use crate::rng::{blake3_hash, SeededRng};
use crate::transcript::{transform_verifiable, transform_verified};
use crate::utils::{
    batch_mul_fixed_scalar, multiples, points_equal, seeded_rng, serialize,
};

verus! {

/// The key that proofs are verified with.
#[derive(Clone, Debug, PartialEq)]
pub struct VerifyingKey<E: Pairing> {
    pub alpha_g1: E::G1Affine,
    pub beta_g2: E::G2Affine,
    pub gamma_g2: E::G2Affine,
    pub delta_g2: E::G2Affine,
    pub gamma_abc_g1: Vec<E::G1Affine>,
}

/// The key that proofs are made with.
#[derive(Clone, Debug, PartialEq)]
pub struct ProvingKey<E: Pairing> {
    pub vk: VerifyingKey<E>,
    pub beta_g1: E::G1Affine,
    pub delta_g1: E::G1Affine,
    pub a_query: Vec<E::G1Affine>,
    pub b_g1_query: Vec<E::G1Affine>,
    pub b_g2_query: Vec<E::G2Affine>,
    pub h_query: Vec<E::G1Affine>,
    pub l_query: Vec<E::G1Affine>,
}

/// A whole key.
#[derive(Clone, Debug, PartialEq)]
pub struct FullKey<E: Pairing> {
    pub key: ProvingKey<E>,
}

/// The part of a key that contributions change.
#[derive(Clone, Debug, PartialEq)]
pub struct PartialKey<E: Pairing> {
    pub delta_g1: E::G1Affine,
    pub delta_g2: E::G2Affine,
    pub h_query: Vec<E::G1Affine>,
    pub l_query: Vec<E::G1Affine>,
}

/// A [`VerifyingKey`] with its vector taken as a sequence.
pub struct VerifyingKeyModel<E: Pairing> {
    pub alpha_g1: E::G1Affine,
    pub beta_g2: E::G2Affine,
    pub gamma_g2: E::G2Affine,
    pub delta_g2: E::G2Affine,
    pub gamma_abc_g1: Seq<E::G1Affine>,
}

/// A [`ProvingKey`] with its vectors taken as sequences.
pub struct ProvingKeyModel<E: Pairing> {
    pub vk: VerifyingKeyModel<E>,
    pub beta_g1: E::G1Affine,
    pub delta_g1: E::G1Affine,
    pub a_query: Seq<E::G1Affine>,
    pub b_g1_query: Seq<E::G1Affine>,
    pub b_g2_query: Seq<E::G2Affine>,
    pub h_query: Seq<E::G1Affine>,
    pub l_query: Seq<E::G1Affine>,
}

/// A [`PartialKey`] with its vectors taken as sequences.
pub struct PartialKeyModel<E: Pairing> {
    pub delta_g1: E::G1Affine,
    pub delta_g2: E::G2Affine,
    pub h_query: Seq<E::G1Affine>,
    pub l_query: Seq<E::G1Affine>,
}

impl<E: Pairing> View for VerifyingKey<E> {
    type V = VerifyingKeyModel<E>;

    open spec fn view(&self) -> VerifyingKeyModel<E> {
        VerifyingKeyModel {
            alpha_g1: self.alpha_g1,
            beta_g2: self.beta_g2,
            gamma_g2: self.gamma_g2,
            delta_g2: self.delta_g2,
            gamma_abc_g1: self.gamma_abc_g1@,
        }
    }
}

impl<E: Pairing> View for ProvingKey<E> {
    type V = ProvingKeyModel<E>;

    open spec fn view(&self) -> ProvingKeyModel<E> {
        ProvingKeyModel {
            vk: self.vk@,
            beta_g1: self.beta_g1,
            delta_g1: self.delta_g1,
            a_query: self.a_query@,
            b_g1_query: self.b_g1_query@,
            b_g2_query: self.b_g2_query@,
            h_query: self.h_query@,
            l_query: self.l_query@,
        }
    }
}

impl<E: Pairing> View for FullKey<E> {
    type V = ProvingKeyModel<E>;

    open spec fn view(&self) -> ProvingKeyModel<E> {
        self.key@
    }
}

impl<E: Pairing> View for PartialKey<E> {
    type V = PartialKeyModel<E>;

    open spec fn view(&self) -> PartialKeyModel<E> {
        PartialKeyModel {
            delta_g1: self.delta_g1,
            delta_g2: self.delta_g2,
            h_query: self.h_query@,
            l_query: self.l_query@,
        }
    }
}

/// What a contributor to a key with these deltas is challenged with.
pub open spec fn challenge_bytes<E: Pairing>(
    delta_g1: E::G1Affine,
    delta_g2: E::G2Affine,
) -> Seq<u8> {
    E::G1Affine::encoding(delta_g1, true) + E::G2Affine::encoding(delta_g2, true)
}

impl<E: Pairing> ProvingKeyModel<E> {
    /// The part that contributions change.
    pub open spec fn partial(self) -> PartialKeyModel<E> {
        PartialKeyModel {
            delta_g1: self.delta_g1,
            delta_g2: self.vk.delta_g2,
            h_query: self.h_query,
            l_query: self.l_query,
        }
    }

    /// The key with another part in place of the one that contributions change.
    pub open spec fn with_partial(self, partial: PartialKeyModel<E>) -> Self {
        ProvingKeyModel {
            vk: VerifyingKeyModel { delta_g2: partial.delta_g2, ..self.vk },
            delta_g1: partial.delta_g1,
            h_query: partial.h_query,
            l_query: partial.l_query,
            ..self
        }
    }
}

impl<E: Pairing> PartialKeyModel<E> {
    /// What a contributor to the key is challenged with.
    pub open spec fn challenge(self) -> Seq<u8> {
        challenge_bytes::<E>(self.delta_g1, self.delta_g2)
    }

    /// The key after the contribution of a scalar of value `delta`: the deltas are multiplied by
    /// it and the queries by its inverse.
    pub open spec fn contributed(self, delta: nat) -> Self {
        let inverse = inverse_mod(delta, E::ScalarField::order());
        PartialKeyModel {
            delta_g1: multiple(self.delta_g1, delta),
            delta_g2: multiple(self.delta_g2, delta),
            h_query: multiples(self.h_query, inverse),
            l_query: multiples(self.l_query, inverse),
        }
    }
}

/// The fields in the order in which they are written.
pub type VerifyingKeyParts<E> = (G1<E>, (G2<E>, (G2<E>, (G2<E>, Vec<G1<E>>))));

impl<E: Pairing> CanonicalModel for VerifyingKey<E> {
    type Value = <VerifyingKeyParts<E> as CanonicalModel>::Value;

    open spec fn value_of(self) -> Self::Value {
        (
            self.alpha_g1.value_of(),
            (
                self.beta_g2.value_of(),
                (
                    self.gamma_g2.value_of(),
                    (self.delta_g2.value_of(), self.gamma_abc_g1.value_of()),
                ),
            ),
        )
    }

    open spec fn valid(value: Self::Value) -> bool {
        <VerifyingKeyParts<E> as CanonicalModel>::valid(value)
    }

    open spec fn encoding(value: Self::Value, compress: bool) -> Seq<u8> {
        <VerifyingKeyParts<E> as CanonicalModel>::encoding(value, compress)
    }

    open spec fn encoded_length(value: Self::Value, compress: bool) -> nat {
        <VerifyingKeyParts<E> as CanonicalModel>::encoded_length(value, compress)
    }

    open spec fn decoding(bytes: Seq<u8>, compress: bool, validate: bool) -> Result<
        (Self::Value, nat),
        Seq<char>,
    > {
        <VerifyingKeyParts<E> as CanonicalModel>::decoding(bytes, compress, validate)
    }
}

impl<E: Pairing> Canonical for VerifyingKey<E> {
    fn serialize_with_mode(&self, compress: bool, out: &mut Vec<u8>) -> (res: Result<(), String>) {
        let ghost before = out@;
        self.alpha_g1.serialize_with_mode(compress, out)?;
        let ghost written_1 = out@;
        self.beta_g2.serialize_with_mode(compress, out)?;
        let ghost written_2 = out@;
        self.gamma_g2.serialize_with_mode(compress, out)?;
        let ghost written_3 = out@;
        self.delta_g2.serialize_with_mode(compress, out)?;
        self.gamma_abc_g1.serialize_with_mode(compress, out)?;
        proof {
            lemma_written::<G2<E>, Vec<G1<E>>>(
                written_3,
                self.delta_g2.value_of(),
                self.gamma_abc_g1.value_of(),
                compress,
            );
            let tail_3 = (self.delta_g2.value_of(), self.gamma_abc_g1.value_of());
            lemma_written::<G2<E>, (G2<E>, Vec<G1<E>>)>(
                written_2,
                self.gamma_g2.value_of(),
                tail_3,
                compress,
            );
            let tail_2 = (self.gamma_g2.value_of(), tail_3);
            lemma_written::<G2<E>, (G2<E>, (G2<E>, Vec<G1<E>>))>(
                written_1,
                self.beta_g2.value_of(),
                tail_2,
                compress,
            );
            let tail_1 = (self.beta_g2.value_of(), tail_2);
            lemma_written::<G1<E>, (G2<E>, (G2<E>, (G2<E>, Vec<G1<E>>)))>(
                before,
                self.alpha_g1.value_of(),
                tail_1,
                compress,
            );
            assert(reads_back::<VerifyingKeyParts<E>>(self.value_of(), compress) ==> reads_back::<Self>(
                self.value_of(),
                compress,
            ));
        }
        Ok(())
    }

    fn deserialize_with_mode(bytes: &[u8], compress: bool, validate: bool) -> (res: Result<
        (Self, usize),
        String,
    >) {
        let read = <VerifyingKeyParts<E> as Canonical>::deserialize_with_mode(
            bytes,
            compress,
            validate,
        )?;
        let ((alpha_g1, (beta_g2, (gamma_g2, (delta_g2, gamma_abc_g1)))), length) = read;
        Ok((VerifyingKey { alpha_g1, beta_g2, gamma_g2, delta_g2, gamma_abc_g1 }, length))
    }

    fn check(&self) -> (res: bool) {
        self.alpha_g1.check() && self.beta_g2.check() && self.gamma_g2.check()
            && self.delta_g2.check() && self.gamma_abc_g1.check()
    }
}

/// The fields in the order in which they are written.
pub type ProvingKeyParts<E> = (
    VerifyingKey<E>,
    (G1<E>, (G1<E>, (Vec<G1<E>>, (Vec<G1<E>>, (Vec<G2<E>>, (Vec<G1<E>>, Vec<G1<E>>)))))),
);

impl<E: Pairing> CanonicalModel for ProvingKey<E> {
    type Value = <ProvingKeyParts<E> as CanonicalModel>::Value;

    open spec fn value_of(self) -> Self::Value {
        (
            self.vk.value_of(),
            (
                self.beta_g1.value_of(),
                (
                    self.delta_g1.value_of(),
                    (
                        self.a_query.value_of(),
                        (
                            self.b_g1_query.value_of(),
                            (
                                self.b_g2_query.value_of(),
                                (self.h_query.value_of(), self.l_query.value_of()),
                            ),
                        ),
                    ),
                ),
            ),
        )
    }

    open spec fn valid(value: Self::Value) -> bool {
        <ProvingKeyParts<E> as CanonicalModel>::valid(value)
    }

    open spec fn encoding(value: Self::Value, compress: bool) -> Seq<u8> {
        <ProvingKeyParts<E> as CanonicalModel>::encoding(value, compress)
    }

    open spec fn encoded_length(value: Self::Value, compress: bool) -> nat {
        <ProvingKeyParts<E> as CanonicalModel>::encoded_length(value, compress)
    }

    open spec fn decoding(bytes: Seq<u8>, compress: bool, validate: bool) -> Result<
        (Self::Value, nat),
        Seq<char>,
    > {
        <ProvingKeyParts<E> as CanonicalModel>::decoding(bytes, compress, validate)
    }
}

impl<E: Pairing> Canonical for ProvingKey<E> {
    fn serialize_with_mode(&self, compress: bool, out: &mut Vec<u8>) -> (res: Result<(), String>) {
        let ghost before = out@;
        self.vk.serialize_with_mode(compress, out)?;
        let ghost written_1 = out@;
        self.beta_g1.serialize_with_mode(compress, out)?;
        let ghost written_2 = out@;
        self.delta_g1.serialize_with_mode(compress, out)?;
        let ghost written_3 = out@;
        self.a_query.serialize_with_mode(compress, out)?;
        let ghost written_4 = out@;
        self.b_g1_query.serialize_with_mode(compress, out)?;
        let ghost written_5 = out@;
        self.b_g2_query.serialize_with_mode(compress, out)?;
        let ghost written_6 = out@;
        self.h_query.serialize_with_mode(compress, out)?;
        self.l_query.serialize_with_mode(compress, out)?;
        proof {
            lemma_written::<Vec<G1<E>>, Vec<G1<E>>>(
                written_6,
                self.h_query.value_of(),
                self.l_query.value_of(),
                compress,
            );
            let tail_6 = (self.h_query.value_of(), self.l_query.value_of());
            lemma_written::<Vec<G2<E>>, (Vec<G1<E>>, Vec<G1<E>>)>(
                written_5,
                self.b_g2_query.value_of(),
                tail_6,
                compress,
            );
            let tail_5 = (self.b_g2_query.value_of(), tail_6);
            lemma_written::<Vec<G1<E>>, (Vec<G2<E>>, (Vec<G1<E>>, Vec<G1<E>>))>(
                written_4,
                self.b_g1_query.value_of(),
                tail_5,
                compress,
            );
            let tail_4 = (self.b_g1_query.value_of(), tail_5);
            lemma_written::<Vec<G1<E>>, (Vec<G1<E>>, (Vec<G2<E>>, (Vec<G1<E>>, Vec<G1<E>>)))>(
                written_3,
                self.a_query.value_of(),
                tail_4,
                compress,
            );
            let tail_3 = (self.a_query.value_of(), tail_4);
            lemma_written::<
                G1<E>,
                (Vec<G1<E>>, (Vec<G1<E>>, (Vec<G2<E>>, (Vec<G1<E>>, Vec<G1<E>>)))),
            >(written_2, self.delta_g1.value_of(), tail_3, compress);
            let tail_2 = (self.delta_g1.value_of(), tail_3);
            lemma_written::<
                G1<E>,
                (G1<E>, (Vec<G1<E>>, (Vec<G1<E>>, (Vec<G2<E>>, (Vec<G1<E>>, Vec<G1<E>>))))),
            >(written_1, self.beta_g1.value_of(), tail_2, compress);
            let tail_1 = (self.beta_g1.value_of(), tail_2);
            lemma_written::<
                VerifyingKey<E>,
                (
                    G1<E>,
                    (G1<E>, (Vec<G1<E>>, (Vec<G1<E>>, (Vec<G2<E>>, (Vec<G1<E>>, Vec<G1<E>>))))),
                ),
            >(before, self.vk.value_of(), tail_1, compress);
            assert(reads_back::<ProvingKeyParts<E>>(self.value_of(), compress) ==> reads_back::<Self>(
                self.value_of(),
                compress,
            ));
        }
        Ok(())
    }

    fn deserialize_with_mode(bytes: &[u8], compress: bool, validate: bool) -> (res: Result<
        (Self, usize),
        String,
    >) {
        let read = <ProvingKeyParts<E> as Canonical>::deserialize_with_mode(
            bytes,
            compress,
            validate,
        )?;
        let ((
            vk,
            (beta_g1, (delta_g1, (a_query, (b_g1_query, (b_g2_query, (h_query, l_query)))))),
        ), length) = read;
        let value = ProvingKey {
            vk,
            beta_g1,
            delta_g1,
            a_query,
            b_g1_query,
            b_g2_query,
            h_query,
            l_query,
        };
        Ok((value, length))
    }

    fn check(&self) -> (res: bool) {
        self.vk.check() && self.beta_g1.check() && self.delta_g1.check() && self.a_query.check()
            && self.b_g1_query.check() && self.b_g2_query.check() && self.h_query.check()
            && self.l_query.check()
    }
}

/// The fields in the order in which they are written.
pub type FullKeyParts<E> = ProvingKey<E>;

impl<E: Pairing> CanonicalModel for FullKey<E> {
    type Value = <FullKeyParts<E> as CanonicalModel>::Value;

    open spec fn value_of(self) -> Self::Value {
        self.key.value_of()
    }

    open spec fn valid(value: Self::Value) -> bool {
        <FullKeyParts<E> as CanonicalModel>::valid(value)
    }

    open spec fn encoding(value: Self::Value, compress: bool) -> Seq<u8> {
        <FullKeyParts<E> as CanonicalModel>::encoding(value, compress)
    }

    open spec fn encoded_length(value: Self::Value, compress: bool) -> nat {
        <FullKeyParts<E> as CanonicalModel>::encoded_length(value, compress)
    }

    open spec fn decoding(bytes: Seq<u8>, compress: bool, validate: bool) -> Result<
        (Self::Value, nat),
        Seq<char>,
    > {
        <FullKeyParts<E> as CanonicalModel>::decoding(bytes, compress, validate)
    }
}

impl<E: Pairing> Canonical for FullKey<E> {
    fn serialize_with_mode(&self, compress: bool, out: &mut Vec<u8>) -> (res: Result<(), String>) {
        self.key.serialize_with_mode(compress, out)?;
        proof {
            assert(reads_back::<FullKeyParts<E>>(self.value_of(), compress) ==> reads_back::<Self>(
                self.value_of(),
                compress,
            ));
        }
        Ok(())
    }

    fn deserialize_with_mode(bytes: &[u8], compress: bool, validate: bool) -> (res: Result<
        (Self, usize),
        String,
    >) {
        let read = <FullKeyParts<E> as Canonical>::deserialize_with_mode(
            bytes,
            compress,
            validate,
        )?;
        let (key, length) = read;
        Ok((FullKey { key }, length))
    }

    fn check(&self) -> (res: bool) {
        self.key.check()
    }
}

/// The fields in the order in which they are written.
pub type PartialKeyParts<E> = (G1<E>, (G2<E>, (Vec<G1<E>>, Vec<G1<E>>)));

impl<E: Pairing> CanonicalModel for PartialKey<E> {
    type Value = <PartialKeyParts<E> as CanonicalModel>::Value;

    open spec fn value_of(self) -> Self::Value {
        (
            self.delta_g1.value_of(),
            (self.delta_g2.value_of(), (self.h_query.value_of(), self.l_query.value_of())),
        )
    }

    open spec fn valid(value: Self::Value) -> bool {
        <PartialKeyParts<E> as CanonicalModel>::valid(value)
    }

    open spec fn encoding(value: Self::Value, compress: bool) -> Seq<u8> {
        <PartialKeyParts<E> as CanonicalModel>::encoding(value, compress)
    }

    open spec fn encoded_length(value: Self::Value, compress: bool) -> nat {
        <PartialKeyParts<E> as CanonicalModel>::encoded_length(value, compress)
    }

    open spec fn decoding(bytes: Seq<u8>, compress: bool, validate: bool) -> Result<
        (Self::Value, nat),
        Seq<char>,
    > {
        <PartialKeyParts<E> as CanonicalModel>::decoding(bytes, compress, validate)
    }
}

impl<E: Pairing> Canonical for PartialKey<E> {
    fn serialize_with_mode(&self, compress: bool, out: &mut Vec<u8>) -> (res: Result<(), String>) {
        let ghost before = out@;
        self.delta_g1.serialize_with_mode(compress, out)?;
        let ghost written_1 = out@;
        self.delta_g2.serialize_with_mode(compress, out)?;
        let ghost written_2 = out@;
        self.h_query.serialize_with_mode(compress, out)?;
        self.l_query.serialize_with_mode(compress, out)?;
        proof {
            lemma_written::<Vec<G1<E>>, Vec<G1<E>>>(
                written_2,
                self.h_query.value_of(),
                self.l_query.value_of(),
                compress,
            );
            let tail_2 = (self.h_query.value_of(), self.l_query.value_of());
            lemma_written::<G2<E>, (Vec<G1<E>>, Vec<G1<E>>)>(
                written_1,
                self.delta_g2.value_of(),
                tail_2,
                compress,
            );
            let tail_1 = (self.delta_g2.value_of(), tail_2);
            lemma_written::<G1<E>, (G2<E>, (Vec<G1<E>>, Vec<G1<E>>))>(
                before,
                self.delta_g1.value_of(),
                tail_1,
                compress,
            );
            assert(reads_back::<PartialKeyParts<E>>(self.value_of(), compress) ==> reads_back::<Self>(
                self.value_of(),
                compress,
            ));
        }
        Ok(())
    }

    fn deserialize_with_mode(bytes: &[u8], compress: bool, validate: bool) -> (res: Result<
        (Self, usize),
        String,
    >) {
        let read = <PartialKeyParts<E> as Canonical>::deserialize_with_mode(
            bytes,
            compress,
            validate,
        )?;
        let ((delta_g1, (delta_g2, (h_query, l_query))), length) = read;
        Ok((PartialKey { delta_g1, delta_g2, h_query, l_query }, length))
    }

    fn check(&self) -> (res: bool) {
        self.delta_g1.check() && self.delta_g2.check() && self.h_query.check()
            && self.l_query.check()
    }
}

impl<E: Pairing> PartialEq<PartialKey<E>> for FullKey<E> {
    fn eq(&self, other: &PartialKey<E>) -> (res: bool) {
        self.key.delta_g1.equals(&other.delta_g1) && self.key.vk.delta_g2.equals(&other.delta_g2)
            && points_equal(&self.key.h_query, &other.h_query) && points_equal(
            &self.key.l_query,
            &other.l_query,
        )
    }
}

impl<E: Pairing> PartialEqSpecImpl<PartialKey<E>> for FullKey<E> {
    open spec fn obeys_eq_spec() -> bool {
        true
    }

    open spec fn eq_spec(&self, other: &PartialKey<E>) -> bool {
        self@.partial() == other@
    }
}

impl<E: Pairing> From<ProvingKey<E>> for FullKey<E> {
    fn from(val: ProvingKey<E>) -> (res: Self) {
        FullKey { key: val }
    }
}

impl<E: Pairing> FromSpecImpl<ProvingKey<E>> for FullKey<E> {
    open spec fn obeys_from_spec() -> bool {
        true
    }

    open spec fn from_spec(val: ProvingKey<E>) -> Self {
        FullKey { key: val }
    }
}

impl<E: Pairing> From<FullKey<E>> for ProvingKey<E> {
    fn from(val: FullKey<E>) -> (res: Self) {
        val.key
    }
}

impl<E: Pairing> FromSpecImpl<FullKey<E>> for ProvingKey<E> {
    open spec fn obeys_from_spec() -> bool {
        true
    }

    open spec fn from_spec(val: FullKey<E>) -> Self {
        val.key
    }
}

impl<E: Pairing> From<ProvingKey<E>> for PartialKey<E> {
    fn from(val: ProvingKey<E>) -> (res: Self) {
        PartialKey {
            delta_g1: val.delta_g1,
            delta_g2: val.vk.delta_g2,
            h_query: val.h_query,
            l_query: val.l_query,
        }
    }
}

impl<E: Pairing> FromSpecImpl<ProvingKey<E>> for PartialKey<E> {
    open spec fn obeys_from_spec() -> bool {
        true
    }

    open spec fn from_spec(val: ProvingKey<E>) -> Self {
        PartialKey {
            delta_g1: val.delta_g1,
            delta_g2: val.vk.delta_g2,
            h_query: val.h_query,
            l_query: val.l_query,
        }
    }
}

impl<E: Pairing> From<FullKey<E>> for PartialKey<E> {
    fn from(val: FullKey<E>) -> (res: Self) {
        PartialKey {
            delta_g1: val.key.delta_g1,
            delta_g2: val.key.vk.delta_g2,
            h_query: val.key.h_query,
            l_query: val.key.l_query,
        }
    }
}

impl<E: Pairing> FromSpecImpl<FullKey<E>> for PartialKey<E> {
    open spec fn obeys_from_spec() -> bool {
        true
    }

    open spec fn from_spec(val: FullKey<E>) -> Self {
        PartialKey {
            delta_g1: val.key.delta_g1,
            delta_g2: val.key.vk.delta_g2,
            h_query: val.key.h_query,
            l_query: val.key.l_query,
        }
    }
}

impl<E: Pairing> From<&'_ ProvingKey<E>> for PartialKey<E> {
    fn from(val: &'_ ProvingKey<E>) -> (res: Self)
        ensures
            res@ == val@.partial(),
    {
        PartialKey {
            delta_g1: val.delta_g1,
            delta_g2: val.vk.delta_g2,
            h_query: slice_to_vec(&val.h_query),
            l_query: slice_to_vec(&val.l_query),
        }
    }
}

impl<E: Pairing> FromSpecImpl<&'_ ProvingKey<E>> for PartialKey<E> {
    open spec fn obeys_from_spec() -> bool {
        false
    }

    open spec fn from_spec(val: &'_ ProvingKey<E>) -> Self {
        arbitrary()
    }
}

impl<E: Pairing> From<&'_ FullKey<E>> for PartialKey<E> {
    fn from(val: &'_ FullKey<E>) -> (res: Self)
        ensures
            res@ == val@.partial(),
    {
        PartialKey::from(&val.key)
    }
}

impl<E: Pairing> FromSpecImpl<&'_ FullKey<E>> for PartialKey<E> {
    open spec fn obeys_from_spec() -> bool {
        false
    }

    open spec fn from_spec(val: &'_ FullKey<E>) -> Self {
        arbitrary()
    }
}

/// The encodings of a key's deltas.
pub(crate) fn challenge_of<E: Pairing>(
    delta_g1: &E::G1Affine,
    delta_g2: &E::G2Affine,
) -> (res: Result<Vec<u8>, Error>)
    ensures
        res matches Ok(bytes) && bytes@ == challenge_bytes::<E>(*delta_g1, *delta_g2),
{
    proof {
        delta_g1.lemma_canonical();
        delta_g2.lemma_canonical();
    }
    let mut bytes = serialize(delta_g1)?;
    let mut more = serialize(delta_g2)?;
    bytes.append(&mut more);
    Ok(bytes)
}

/// Whether `res` is the proof of knowledge of the scalar of value `delta`, which holds.
pub open spec fn proves<E: Pairing>(
    res: Result<RatioProof<E>, Error>,
    delta: nat,
    challenge: Seq<u8>,
) -> bool {
    res matches Ok(made) && made == RatioProof::<E>::generated(delta, challenge)
        && made.in_groups() && made.holds(challenge)
}

impl<E: Pairing> PartialKey<E> {
    /// What a contributor is challenged with: the encodings of both deltas.
    pub fn challenge(&self) -> (res: Result<Vec<u8>, Error>)
        ensures
            res matches Ok(bytes) && bytes@ == self@.challenge(),
    {
        challenge_of::<E>(&self.delta_g1, &self.delta_g2)
    }

    /// Contributes the scalar that is drawn from a generator seeded with `seed`.
    pub fn contribute_seed(&mut self, seed: &[u8]) -> (res: Result<RatioProof<E>, Error>)
        requires
            E::ScalarField::sampled(blake3_hash(seed@), 0).0.value() != 0,
        ensures
            ({
                let delta = E::ScalarField::sampled(blake3_hash(seed@), 0).0.value();
                &&& final(self)@ == old(self)@.contributed(delta)
                &&& proves(res, delta, old(self)@.challenge())
            }),
            old(self)@.in_groups() ==> final(self)@.in_groups() && (res matches Ok(made)
                ==> transform_verifiable(old(self)@, final(self)@, made) && transform_verified(
                old(self)@,
                final(self)@,
                made,
            ) is Ok),
    {
        let mut rng = seeded_rng(seed);
        self.contribute_rng(&mut rng)
    }

    /// Contributes the scalar that is drawn from a generator seeded with `seed`. Where zero is
    /// drawn, the key is left as it is and the result is `None`.
    pub fn checked_contribute_seed(&mut self, seed: &[u8]) -> (res: Option<
        Result<RatioProof<E>, Error>,
    >)
        ensures
            ({
                let delta = E::ScalarField::sampled(blake3_hash(seed@), 0).0.value();
                &&& delta == 0 ==> res is None && *final(self) == *old(self)
                &&& delta != 0 ==> final(self)@ == old(self)@.contributed(delta)
                &&& delta != 0 ==> res is Some && proves(res->0, delta, old(self)@.challenge())
            }),
            old(self)@.in_groups() ==> final(self)@.in_groups() && (res matches Some(Ok(made))
                ==> transform_verifiable(old(self)@, final(self)@, made) && transform_verified(
                old(self)@,
                final(self)@,
                made,
            ) is Ok),
    {
        let mut rng = seeded_rng(seed);
        if E::ScalarField::rand(&mut rng).inverse().is_none() {
            None
        } else {
            Some(self.contribute_seed(seed))
        }
    }

    /// Contributes a scalar drawn from `rng`.
    pub fn contribute_rng(&mut self, rng: &mut SeededRng) -> (res: Result<RatioProof<E>, Error>)
        requires
            E::ScalarField::sampled(old(rng).seed@, old(rng).position).0.value() != 0,
        ensures
            ({
                let (delta, position) = E::ScalarField::sampled(old(rng).seed@, old(rng).position);
                &&& final(rng).position == position
                &&& final(rng).seed == old(rng).seed
                &&& final(self)@ == old(self)@.contributed(delta.value())
                &&& proves(res, delta.value(), old(self)@.challenge())
            }),
            old(self)@.in_groups() ==> final(self)@.in_groups() && (res matches Ok(made)
                ==> transform_verifiable(old(self)@, final(self)@, made) && transform_verified(
                old(self)@,
                final(self)@,
                made,
            ) is Ok),
    {
        let delta = E::ScalarField::rand(rng);
        self.contribute(delta)
    }

    /// Contributes a scalar drawn from `rng`. Where zero is drawn, the key is left as it is and
    /// the result is `None`.
    pub fn checked_contribute_rng(&mut self, rng: &mut SeededRng) -> (res: Option<
        Result<RatioProof<E>, Error>,
    >)
        ensures
            ({
                let (delta, position) = E::ScalarField::sampled(old(rng).seed@, old(rng).position);
                &&& final(rng).position == position
                &&& final(rng).seed == old(rng).seed
                &&& delta.value() == 0 ==> res is None && *final(self) == *old(self)
                &&& delta.value() != 0 ==> final(self)@ == old(self)@.contributed(delta.value())
                &&& delta.value() != 0 ==> res is Some && proves(
                    res->0,
                    delta.value(),
                    old(self)@.challenge(),
                )
            }),
            old(self)@.in_groups() ==> final(self)@.in_groups() && (res matches Some(Ok(made))
                ==> transform_verifiable(old(self)@, final(self)@, made) && transform_verified(
                old(self)@,
                final(self)@,
                made,
            ) is Ok),
    {
        let mut ahead = *rng;
        if E::ScalarField::rand(&mut ahead).inverse().is_none() {
            *rng = ahead;
            None
        } else {
            Some(self.contribute_rng(rng))
        }
    }

    /// Contributes `delta`: proves knowledge of it for the key's challenge, multiplies the deltas
    /// by it and the queries by its inverse.
    ///
    /// What becomes of a key in its groups is accepted with the proof.
    pub fn contribute(&mut self, delta: E::ScalarField) -> (res: Result<RatioProof<E>, Error>)
        requires
            delta.value() != 0,
        ensures
            final(self)@ == old(self)@.contributed(delta.value()),
            proves(res, delta.value(), old(self)@.challenge()),
            old(self)@.in_groups() ==> final(self)@.in_groups() && (res matches Ok(made)
                ==> transform_verifiable(old(self)@, final(self)@, made) && transform_verified(
                old(self)@,
                final(self)@,
                made,
            ) is Ok),
    {
        have_full_orders::<E>();
        let inverse = delta.inverse().unwrap();
        proof {
            delta.lemma_value();
            inverse.lemma_value();
            lemma_inverse_mod(delta.value(), inverse.value(), E::ScalarField::order());
        }
        let challenge = self.challenge()?;
        let proof_made = RatioProof::<E>::generate(delta, &challenge)?;
        batch_mul_fixed_scalar(&mut self.l_query, inverse);
        batch_mul_fixed_scalar(&mut self.h_query, inverse);
        self.delta_g1 = self.delta_g1.times(delta);
        self.delta_g2 = self.delta_g2.times(delta);
        proof {
            if old(self)@.in_groups() {
                law_contribution_stays_in_groups(old(self)@, delta.value());
                law_contribution_transforms(old(self)@, delta.value());
            }
        }
        Ok(proof_made)
    }
}

impl<E: Pairing> FullKey<E> {
    /// What a contributor is challenged with: the encodings of both deltas.
    pub fn challenge(&self) -> (res: Result<Vec<u8>, Error>)
        ensures
            res matches Ok(bytes) && bytes@ == self@.partial().challenge(),
    {
        challenge_of::<E>(&self.key.delta_g1, &self.key.vk.delta_g2)
    }
}

} // verus!
