use ark_relations::gr1cs::SynthesisError as Outside;

use arkworks_phase2::error::{Error, SynthesisError};

#[test]
fn errors_say_what_is_wrong() {
    let cases = vec![
        (
            Error::ConstraintSystem(SynthesisError::PolynomialDegreeTooLarge),
            "Constraint System: polynomial degree too large",
        ),
        (
            Error::TryFromInt,
            "Try From Int: out of range integral type conversion attempted",
        ),
        (Error::IO("gone".to_string()), "IO Error: gone"),
        (Error::Serialization("bad".to_string()), "Serialization Error: bad"),
        (Error::Locked, "Lock Already Held"),
        (Error::MissingCSMatrices, "Missing Constraint System Matrices"),
        (Error::ConstraintSystemHashesDiffer, "Constraint System Hashes Mismatch"),
        (Error::InvalidRatioProof, "Invalid Ratio Proof"),
        (Error::InconsistentDeltaChange, "Inconsistent Delta Change Error"),
        (Error::InconsistentLChange, "Inconsistent L Change"),
        (Error::InconsistentHChange, "Inconsistent H Change"),
        (Error::InvariantViolated("arity"), "Invariant Violation arity"),
        (Error::InvalidKey("vk: beta_g2"), "Invalid key element vk: beta_g2"),
        (Error::InvalidPartialKey, "Invalid initial partial key"),
        (Error::PtauFieldNotMatching, "Ptau Field Check Not Matching"),
        (Error::NotEnoughPOTDegree(0), "Too Enough POT Degree, Needed Atleast 0"),
        (Error::InvalidPOTDegree(1729), "Invalid Power of Tau Degree, Need 1729"),
        (Error::InvalidPOTSize, "Invalid Power of Tau Size"),
        (Error::Read("x".to_string()), "Read Error: x"),
        (Error::Custom("anything".to_string()), "anything"),
        (Error::InvalidEthSignature, "Invalid Ethereum signature"),
        (
            Error::SignatureAddressMismatch {
                expected: "0x1".to_string(),
                actual: "0x2".to_string(),
            },
            "Signature address mismatch: expected 0x1, got 0x2",
        ),
    ];
    for (error, text) in cases {
        assert_eq!(error.message(), text);
    }
}

#[test]
fn synthesis_errors_say_what_the_constraint_system_says() {
    let cases = vec![
        (SynthesisError::MissingCS, Outside::MissingCS),
        (SynthesisError::AssignmentMissing, Outside::AssignmentMissing),
        (SynthesisError::DivisionByZero, Outside::DivisionByZero),
        (SynthesisError::Unsatisfiable, Outside::Unsatisfiable),
        (SynthesisError::PolynomialDegreeTooLarge, Outside::PolynomialDegreeTooLarge),
        (SynthesisError::PredicateNotFound, Outside::PredicateNotFound),
        (SynthesisError::ArityMismatch, Outside::ArityMismatch),
    ];
    for (own, outside) in cases {
        assert_eq!(own.message(), outside.to_string());
        assert_eq!(Error::from(own), Error::ConstraintSystem(own));
    }
}

#[test]
fn integers_out_of_range_say_what_std_says() {
    let outside = i64::try_from(u64::MAX).unwrap_err();
    assert_eq!(Error::TryFromInt.message(), format!("Try From Int: {outside}"));
}
