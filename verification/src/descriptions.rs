use vstd::prelude::*;

use crate::accumulator::{
    accumulates, prepares, Accumulator, AccumulatorModel, PreparedAccumulator, PreparedModel,
};
use crate::context::ContributionContext;
use crate::curve::Pairing;
use crate::error::{Error, ErrorModel};
use crate::key::{proves, PartialKey};
use crate::ratio::RatioProof;
use crate::reader::{reads, ReadError, ReadErrorModel};
use crate::transcript::{
    accepts, can_sign, signing, signs_and_contributes, transcribes, Transcript, TranscriptModel,
};

verus! {

/// Two errors that are taken for the same are of the same kind, with the same texts and numbers.
pub proof fn law_errors_are_told_apart(a: Error, b: Error)
    ensures
        a@ == b@ ==> match (a, b) {
            (Error::ConstraintSystem(x), Error::ConstraintSystem(y)) => x == y,
            (Error::TryFromInt, Error::TryFromInt) => true,
            (Error::IO(x), Error::IO(y)) => x@ == y@,
            (Error::Serialization(x), Error::Serialization(y)) => x@ == y@,
            (Error::Locked, Error::Locked) => true,
            (Error::MissingCSMatrices, Error::MissingCSMatrices) => true,
            (Error::ConstraintSystemHashesDiffer, Error::ConstraintSystemHashesDiffer) => true,
            (Error::InvalidRatioProof, Error::InvalidRatioProof) => true,
            (Error::InconsistentDeltaChange, Error::InconsistentDeltaChange) => true,
            (Error::InconsistentLChange, Error::InconsistentLChange) => true,
            (Error::InconsistentHChange, Error::InconsistentHChange) => true,
            (Error::InvariantViolated(x), Error::InvariantViolated(y)) => x@ == y@,
            (Error::InvalidKey(x), Error::InvalidKey(y)) => x@ == y@,
            (Error::InvalidPartialKey, Error::InvalidPartialKey) => true,
            (Error::PtauFieldNotMatching, Error::PtauFieldNotMatching) => true,
            (Error::NotEnoughPOTDegree(x), Error::NotEnoughPOTDegree(y)) => x == y,
            (Error::InvalidPOTDegree(x), Error::InvalidPOTDegree(y)) => x == y,
            (Error::InvalidPOTSize, Error::InvalidPOTSize) => true,
            (Error::Read(x), Error::Read(y)) => x@ == y@,
            (Error::Custom(x), Error::Custom(y)) => x@ == y@,
            (Error::InvalidEthSignature, Error::InvalidEthSignature) => true,
            (
                Error::SignatureAddressMismatch { expected, actual },
                Error::SignatureAddressMismatch { expected: other, actual: own },
            ) => expected@ == other@ && actual@ == own@,
            _ => false,
        },
{
}

/// Every error is described as what it is.
pub proof fn law_errors_are_described(error: Error)
    ensures
        match error {
            Error::ConstraintSystem(x) => error@ == ErrorModel::ConstraintSystem(x),
            Error::TryFromInt => error@ == ErrorModel::TryFromInt,
            Error::IO(x) => error@ == ErrorModel::IO(x@),
            Error::Serialization(x) => error@ == ErrorModel::Serialization(x@),
            Error::Locked => error@ == ErrorModel::Locked,
            Error::MissingCSMatrices => error@ == ErrorModel::MissingCSMatrices,
            Error::ConstraintSystemHashesDiffer => error@
                == ErrorModel::ConstraintSystemHashesDiffer,
            Error::InvalidRatioProof => error@ == ErrorModel::InvalidRatioProof,
            Error::InconsistentDeltaChange => error@ == ErrorModel::InconsistentDeltaChange,
            Error::InconsistentLChange => error@ == ErrorModel::InconsistentLChange,
            Error::InconsistentHChange => error@ == ErrorModel::InconsistentHChange,
            Error::InvariantViolated(x) => error@ == ErrorModel::InvariantViolated(x@),
            Error::InvalidKey(x) => error@ == ErrorModel::InvalidKey(x@),
            Error::InvalidPartialKey => error@ == ErrorModel::InvalidPartialKey,
            Error::PtauFieldNotMatching => error@ == ErrorModel::PtauFieldNotMatching,
            Error::NotEnoughPOTDegree(x) => error@ == ErrorModel::NotEnoughPOTDegree(x as nat),
            Error::InvalidPOTDegree(x) => error@ == ErrorModel::InvalidPOTDegree(x as nat),
            Error::InvalidPOTSize => error@ == ErrorModel::InvalidPOTSize,
            Error::Read(x) => error@ == ErrorModel::Read(x@),
            Error::Custom(x) => error@ == ErrorModel::Custom(x@),
            Error::InvalidEthSignature => error@ == ErrorModel::InvalidEthSignature,
            Error::SignatureAddressMismatch { expected, actual } => error@
                == ErrorModel::SignatureAddressMismatch(expected@, actual@),
        },
{
}

/// Results that are described succeed and fail as it is said, with what is said.
pub proof fn law_results_are_the_described<E: Pairing>(
    transcript: Result<Transcript<E>, Error>,
    as_transcript: Result<TranscriptModel<E>, ErrorModel>,
    verdict: Result<(), Error>,
    as_verdict: Result<(), ErrorModel>,
    prepared: Result<PreparedAccumulator<E>, Error>,
    as_prepared: Result<PreparedModel<E>, ErrorModel>,
    powers: Result<Accumulator<E>, Error>,
    as_powers: Result<AccumulatorModel<E>, ErrorModel>,
)
    ensures
        transcribes(transcript, as_transcript) ==> match as_transcript {
            Ok(expected) => transcript is Ok && transcript->Ok_0@ == expected,
            Err(expected) => transcript is Err && transcript->Err_0@ == expected,
        },
        accepts(verdict, as_verdict) ==> match as_verdict {
            Ok(()) => verdict is Ok,
            Err(expected) => verdict is Err && verdict->Err_0@ == expected,
        },
        prepares(prepared, as_prepared) ==> match as_prepared {
            Ok(expected) => prepared is Ok && prepared->Ok_0@ == expected,
            Err(expected) => prepared is Err && prepared->Err_0@ == expected,
        },
        accumulates(powers, as_powers) ==> match as_powers {
            Ok(expected) => powers is Ok && powers->Ok_0@ == expected,
            Err(expected) => powers is Err && powers->Err_0@ == expected,
        },
{
}

/// What is read as described succeeds and fails as it is said, and errors and defects of an input
/// are told apart.
pub proof fn law_reads_are_the_described<T>(
    res: Result<T, ReadError>,
    expected: Result<T, ReadErrorModel>,
)
    ensures
        reads(res, expected) ==> match expected {
            Ok(value) => res == Ok::<T, ReadError>(value),
            Err(ReadErrorModel::Error(error)) => res matches Err(ReadError::Error(own)) && own@
                == error,
            Err(ReadErrorModel::Defect(defect)) => res matches Err(ReadError::Defect(own)) && own
                == defect,
        },
{
}

/// A proof that proves a scalar is the one that is generated for it, lies in its groups and holds.
pub proof fn law_proofs_are_the_described<E: Pairing>(
    res: Result<RatioProof<E>, Error>,
    delta: nat,
    challenge: Seq<u8>,
)
    ensures
        proves(res, delta, challenge) ==> res is Ok && res->Ok_0 == RatioProof::<E>::generated(
            delta,
            challenge,
        ) && res->Ok_0.in_groups() && res->Ok_0.holds(challenge),
{
}

/// A contribution that is signed asks the signer for a signature of the context's hash, and is made
/// with that signature; where the signer fails, its error is given and nothing has changed.
pub proof fn law_signers_are_asked<E: Pairing, F: FnOnce(&[u8; 32]) -> Result<[u8; 65], Error>>(
    before: Transcript<E>,
    after: Transcript<E>,
    res: Result<(), Error>,
    delta: nat,
    eth_address: [u8; 20],
    signer: F,
    context: ContributionContext,
)
    requires
        signs_and_contributes(before, after, res, delta, eth_address, signer, context),
    ensures
        exists|message: [u8; 32], signed: Result<[u8; 65], Error>|
            message@ == context.digest() && #[trigger] call_ensures(signer, (&message,), signed)
                && match signed {
                Ok(eth_signature) => res is Ok && after@ == before@.contributed(
                    delta,
                    eth_address,
                    eth_signature,
                ),
                Err(error) => res == Err::<(), Error>(error) && after == before,
            },
{
    let (message, signed) = choose|message: [u8; 32], signed: Result<[u8; 65], Error>|
        message@ == context.digest() && #[trigger] signing(signer, message, signed)
            && match signed {
            Ok(eth_signature) => res is Ok && after@ == before@.contributed(
                delta,
                eth_address,
                eth_signature,
            ),
            Err(error) => res == Err::<(), Error>(error) && after == before,
        };
    assert(call_ensures(signer, (&message,), signed));
}

/// A signer that takes any message takes that of a context.
pub proof fn law_willing_signers_can_sign<F: FnOnce(&[u8; 32]) -> Result<[u8; 65], Error>>(
    signer: F,
    context: ContributionContext,
)
    requires
        forall|message: [u8; 32]| #[trigger] call_requires(signer, (&message,)),
    ensures
        can_sign(signer, context),
{
}

/// A transcript is described by all of its fields.
pub proof fn law_transcripts_are_described<E: Pairing>(
    transcript: Transcript<E>,
    part: PartialKey<E>,
)
    ensures
        ({
            let (model, key) = (transcript@, transcript.key.key);
            let initial = transcript.initial_key;
            &&& model.key.vk.alpha_g1 == key.vk.alpha_g1
            &&& model.key.vk.beta_g2 == key.vk.beta_g2
            &&& model.key.vk.gamma_g2 == key.vk.gamma_g2
            &&& model.key.vk.delta_g2 == key.vk.delta_g2
            &&& model.key.vk.gamma_abc_g1 == key.vk.gamma_abc_g1@
            &&& model.key.beta_g1 == key.beta_g1
            &&& model.key.delta_g1 == key.delta_g1
            &&& model.key.a_query == key.a_query@
            &&& model.key.b_g1_query == key.b_g1_query@
            &&& model.key.b_g2_query == key.b_g2_query@
            &&& model.key.h_query == key.h_query@
            &&& model.key.l_query == key.l_query@
            &&& model.initial_key.delta_g1 == initial.delta_g1
            &&& model.initial_key.delta_g2 == initial.delta_g2
            &&& model.initial_key.h_query == initial.h_query@
            &&& model.initial_key.l_query == initial.l_query@
            &&& model.contributions == transcript.contributions@
            &&& part@.delta_g1 == part.delta_g1
            &&& part@.delta_g2 == part.delta_g2
            &&& part@.h_query == part.h_query@
            &&& part@.l_query == part.l_query@
        }),
{
}

/// Powers are described by all of their points.
pub proof fn law_powers_are_described<E: Pairing>(
    powers: Accumulator<E>,
    prepared: PreparedAccumulator<E>,
)
    ensures
        powers@.tau_powers_g1 == powers.tau_powers_g1@,
        powers@.tau_powers_g2 == powers.tau_powers_g2@,
        powers@.alpha_tau_powers_g1 == powers.alpha_tau_powers_g1@,
        powers@.beta_tau_powers_g1 == powers.beta_tau_powers_g1@,
        powers@.beta_g2 == powers.beta_g2,
        prepared@.alpha == prepared.alpha,
        prepared@.beta == prepared.beta,
        prepared@.beta_g2 == prepared.beta_g2,
        prepared@.h_query == prepared.h_query@,
        prepared@.tau_lagrange_g1.len() == prepared.tau_lagrange_g1@.len(),
        forall|i: int|
            0 <= i < prepared.tau_lagrange_g1@.len() ==> #[trigger] prepared@.tau_lagrange_g1[i]
                == prepared.tau_lagrange_g1@[i].point,
        prepared@.tau_lagrange_g2.len() == prepared.tau_lagrange_g2@.len(),
        forall|i: int|
            0 <= i < prepared.tau_lagrange_g2@.len() ==> #[trigger] prepared@.tau_lagrange_g2[i]
                == prepared.tau_lagrange_g2@[i].point,
        prepared@.alpha_lagrange_g1.len() == prepared.alpha_lagrange_g1@.len(),
        forall|i: int|
            0 <= i < prepared.alpha_lagrange_g1@.len() ==> #[trigger] prepared@.alpha_lagrange_g1[i]
                == prepared.alpha_lagrange_g1@[i].point,
        prepared@.beta_lagrange_g1.len() == prepared.beta_lagrange_g1@.len(),
        forall|i: int|
            0 <= i < prepared.beta_lagrange_g1@.len() ==> #[trigger] prepared@.beta_lagrange_g1[i]
                == prepared.beta_lagrange_g1@[i].point,
{
}

} // verus!
