use vstd::prelude::*;
use vstd::std_specs::convert::FromSpecImpl;
use vstd::string::StringExecFns;

use crate::text::{decimal, decimal_text};

verus! {

/// Why a constraint system could not be synthesised or evaluated.
#[derive(Clone, Copy, Debug, PartialEq, Eq)]
pub enum SynthesisError {
    MissingCS,
    AssignmentMissing,
    DivisionByZero,
    Unsatisfiable,
    PolynomialDegreeTooLarge,
    PredicateNotFound,
    ArityMismatch,
}

/// What can go wrong while a key is set up, contributed to or verified.
#[derive(Clone, Debug, PartialEq, Eq)]
pub enum Error {
    ConstraintSystem(SynthesisError),
    TryFromInt,
    IO(String),
    Serialization(String),
    Locked,
    MissingCSMatrices,
    ConstraintSystemHashesDiffer,
    InvalidRatioProof,
    InconsistentDeltaChange,
    InconsistentLChange,
    InconsistentHChange,
    InvariantViolated(&'static str),
    InvalidKey(&'static str),
    InvalidPartialKey,
    PtauFieldNotMatching,
    NotEnoughPOTDegree(u32),
    InvalidPOTDegree(u32),
    InvalidPOTSize,
    Read(String),
    Custom(String),
    InvalidEthSignature,
    SignatureAddressMismatch { expected: String, actual: String },
}

/// An [`Error`] with its texts taken as character sequences.
pub enum ErrorModel {
    ConstraintSystem(SynthesisError),
    TryFromInt,
    IO(Seq<char>),
    Serialization(Seq<char>),
    Locked,
    MissingCSMatrices,
    ConstraintSystemHashesDiffer,
    InvalidRatioProof,
    InconsistentDeltaChange,
    InconsistentLChange,
    InconsistentHChange,
    InvariantViolated(Seq<char>),
    InvalidKey(Seq<char>),
    InvalidPartialKey,
    PtauFieldNotMatching,
    NotEnoughPOTDegree(nat),
    InvalidPOTDegree(nat),
    InvalidPOTSize,
    Read(Seq<char>),
    Custom(Seq<char>),
    InvalidEthSignature,
    SignatureAddressMismatch(Seq<char>, Seq<char>),
}

impl View for Error {
    type V = ErrorModel;

    open spec fn view(&self) -> ErrorModel {
        match self {
            Error::ConstraintSystem(e) => ErrorModel::ConstraintSystem(*e),
            Error::TryFromInt => ErrorModel::TryFromInt,
            Error::IO(text) => ErrorModel::IO(text@),
            Error::Serialization(text) => ErrorModel::Serialization(text@),
            Error::Locked => ErrorModel::Locked,
            Error::MissingCSMatrices => ErrorModel::MissingCSMatrices,
            Error::ConstraintSystemHashesDiffer => ErrorModel::ConstraintSystemHashesDiffer,
            Error::InvalidRatioProof => ErrorModel::InvalidRatioProof,
            Error::InconsistentDeltaChange => ErrorModel::InconsistentDeltaChange,
            Error::InconsistentLChange => ErrorModel::InconsistentLChange,
            Error::InconsistentHChange => ErrorModel::InconsistentHChange,
            Error::InvariantViolated(text) => ErrorModel::InvariantViolated(text@),
            Error::InvalidKey(text) => ErrorModel::InvalidKey(text@),
            Error::InvalidPartialKey => ErrorModel::InvalidPartialKey,
            Error::PtauFieldNotMatching => ErrorModel::PtauFieldNotMatching,
            Error::NotEnoughPOTDegree(degree) => ErrorModel::NotEnoughPOTDegree(*degree as nat),
            Error::InvalidPOTDegree(degree) => ErrorModel::InvalidPOTDegree(*degree as nat),
            Error::InvalidPOTSize => ErrorModel::InvalidPOTSize,
            Error::Read(text) => ErrorModel::Read(text@),
            Error::Custom(text) => ErrorModel::Custom(text@),
            Error::InvalidEthSignature => ErrorModel::InvalidEthSignature,
            Error::SignatureAddressMismatch { expected, actual } => {
                ErrorModel::SignatureAddressMismatch(expected@, actual@)
            },
        }
    }
}

impl SynthesisError {
    /// What the error says.
    pub open spec fn text(self) -> Seq<char> {
        match self {
            SynthesisError::MissingCS => "the constraint system was `None`"@,
            SynthesisError::AssignmentMissing => "assignment couldn't be computed"@,
            SynthesisError::DivisionByZero => "division by zero"@,
            SynthesisError::Unsatisfiable => "unsatisfiable constraint system"@,
            SynthesisError::PolynomialDegreeTooLarge => "polynomial degree too large"@,
            SynthesisError::PredicateNotFound => "predicate was not found"@,
            SynthesisError::ArityMismatch => "predicate arity doesn't match input"@,
        }
    }

    /// What the error says.
    pub fn message(&self) -> (res: &'static str)
        ensures
            res@ == self.text(),
    {
        match self {
            SynthesisError::MissingCS => "the constraint system was `None`",
            SynthesisError::AssignmentMissing => "assignment couldn't be computed",
            SynthesisError::DivisionByZero => "division by zero",
            SynthesisError::Unsatisfiable => "unsatisfiable constraint system",
            SynthesisError::PolynomialDegreeTooLarge => "polynomial degree too large",
            SynthesisError::PredicateNotFound => "predicate was not found",
            SynthesisError::ArityMismatch => "predicate arity doesn't match input",
        }
    }
}

impl ErrorModel {
    /// What the error says.
    pub open spec fn text(self) -> Seq<char> {
        match self {
            ErrorModel::ConstraintSystem(error) => "Constraint System: "@ + error.text(),
            ErrorModel::TryFromInt => "Try From Int: out of range integral type conversion attempted"@,
            ErrorModel::Locked => "Lock Already Held"@,
            ErrorModel::MissingCSMatrices => "Missing Constraint System Matrices"@,
            ErrorModel::ConstraintSystemHashesDiffer => "Constraint System Hashes Mismatch"@,
            ErrorModel::InvalidRatioProof => "Invalid Ratio Proof"@,
            ErrorModel::InconsistentDeltaChange => "Inconsistent Delta Change Error"@,
            ErrorModel::InconsistentLChange => "Inconsistent L Change"@,
            ErrorModel::InconsistentHChange => "Inconsistent H Change"@,
            ErrorModel::InvalidPartialKey => "Invalid initial partial key"@,
            ErrorModel::PtauFieldNotMatching => "Ptau Field Check Not Matching"@,
            ErrorModel::InvalidPOTSize => "Invalid Power of Tau Size"@,
            ErrorModel::InvalidEthSignature => "Invalid Ethereum signature"@,
            ErrorModel::IO(text) => "IO Error: "@ + text,
            ErrorModel::Serialization(text) => "Serialization Error: "@ + text,
            ErrorModel::InvariantViolated(text) => "Invariant Violation "@ + text,
            ErrorModel::InvalidKey(text) => "Invalid key element "@ + text,
            ErrorModel::Read(text) => "Read Error: "@ + text,
            ErrorModel::NotEnoughPOTDegree(degree) => {
                "Too Enough POT Degree, Needed Atleast "@ + decimal_text(degree)
            },
            ErrorModel::InvalidPOTDegree(degree) => {
                "Invalid Power of Tau Degree, Need "@ + decimal_text(degree)
            },
            ErrorModel::Custom(text) => text,
            ErrorModel::SignatureAddressMismatch(expected, actual) => {
                "Signature address mismatch: expected "@ + expected + ", got "@ + actual
            },
        }
    }
}

/// A text behind another.
fn joined(first: &str, second: &str) -> (res: String)
    ensures
        res@ == first@ + second@,
{
    let mut res = first.to_owned();
    res.append(second);
    res
}

impl Error {
    /// What the error says.
    pub fn message(&self) -> (res: String)
        ensures
            res@ == self@.text(),
    {
        match self {
            Error::ConstraintSystem(error) => joined("Constraint System: ", error.message()),
            Error::TryFromInt => "Try From Int: out of range integral type conversion attempted".to_owned(),
            Error::Locked => "Lock Already Held".to_owned(),
            Error::MissingCSMatrices => "Missing Constraint System Matrices".to_owned(),
            Error::ConstraintSystemHashesDiffer => "Constraint System Hashes Mismatch".to_owned(),
            Error::InvalidRatioProof => "Invalid Ratio Proof".to_owned(),
            Error::InconsistentDeltaChange => "Inconsistent Delta Change Error".to_owned(),
            Error::InconsistentLChange => "Inconsistent L Change".to_owned(),
            Error::InconsistentHChange => "Inconsistent H Change".to_owned(),
            Error::InvalidPartialKey => "Invalid initial partial key".to_owned(),
            Error::PtauFieldNotMatching => "Ptau Field Check Not Matching".to_owned(),
            Error::InvalidPOTSize => "Invalid Power of Tau Size".to_owned(),
            Error::InvalidEthSignature => "Invalid Ethereum signature".to_owned(),
            Error::IO(text) => joined("IO Error: ", text),
            Error::Serialization(text) => joined("Serialization Error: ", text),
            Error::InvariantViolated(text) => joined("Invariant Violation ", text),
            Error::InvalidKey(text) => joined("Invalid key element ", text),
            Error::Read(text) => joined("Read Error: ", text),
            Error::NotEnoughPOTDegree(degree) => joined(
                "Too Enough POT Degree, Needed Atleast ",
                decimal(*degree as usize).as_str(),
            ),
            Error::InvalidPOTDegree(degree) => joined(
                "Invalid Power of Tau Degree, Need ",
                decimal(*degree as usize).as_str(),
            ),
            Error::Custom(text) => text.clone(),
            Error::SignatureAddressMismatch { expected, actual } => {
                let mut res = joined("Signature address mismatch: expected ", expected);
                res.append(", got ");
                res.append(actual);
                res
            },
        }
    }
}

impl From<SynthesisError> for Error {
    fn from(error: SynthesisError) -> (res: Self) {
        Error::ConstraintSystem(error)
    }
}

impl FromSpecImpl<SynthesisError> for Error {
    open spec fn obeys_from_spec() -> bool {
        true
    }

    open spec fn from_spec(error: SynthesisError) -> Self {
        Error::ConstraintSystem(error)
    }
}

} // verus!
