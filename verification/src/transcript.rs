use vstd::prelude::*;
use vstd::slice::slice_to_vec;

use crate::accumulator::{Accumulator, AccumulatorModel, PreparedAccumulator, PreparedModel};
use crate::algebra::{have_full_orders, lemma_inverse_mod, mul_mod};
use crate::canonical::{lemma_written, reads_back, Canonical, CanonicalModel};
use crate::circuit::{
    batch_compute, column_combination, column_entries, lemma_column_entries_index, matrix_fits,
    transpose_matrix, Circuit, SparseMatrix,
};
pub use crate::context::ContributionContext;
use crate::curve::{
    all_in_group, in_group, log, sum, AffineRepr, GroupModel, Pairing, PrimeField, ScalarModel,
};
use crate::error::{Error, ErrorModel, SynthesisError};
use crate::key::{
    challenge_bytes, FullKey, PartialKey, PartialKeyModel, ProvingKey, ProvingKeyModel,
    VerifyingKey, VerifyingKeyModel,
};
use crate::keypair::PublicKey;
use crate::laws::{
    law_contribution_stays_honest, law_fresh_is_honest, law_honest_is_accepted,
    law_prepare_stays_in_groups, law_transcript_stays_in_groups, lemma_specialized_in_groups,
};
use crate::math::{ceil_log2, domain_size, lemma_domain_size};
use crate::ratio::RatioProof;
use crate::rng::{blake3_hash, SeededRng};
use crate::utils::{
    batch_into_affine, batch_mul_fixed_scalar, checked_same_ratio_swap, lemma_points_value,
    merge_ratio, merge_ratio_affine_vec, points_equal, same_ratio_swap_defined,
    same_ratio_swap_spec, seeded_rng,
};

verus! {

/// A key, what it was before any contribution, and the contributions to it.
#[derive(Clone, Debug, PartialEq)]
pub struct Transcript<E: Pairing> {
    pub key: FullKey<E>,
    pub initial_key: PartialKey<E>,
    pub contributions: Vec<PublicKey<E>>,
}

/// A [`Transcript`] with its vectors taken as sequences.
pub struct TranscriptModel<E: Pairing> {
    pub key: ProvingKeyModel<E>,
    pub initial_key: PartialKeyModel<E>,
    pub contributions: Seq<PublicKey<E>>,
}

impl<E: Pairing> View for Transcript<E> {
    type V = TranscriptModel<E>;

    open spec fn view(&self) -> TranscriptModel<E> {
        TranscriptModel {
            key: self.key@,
            initial_key: self.initial_key@,
            contributions: self.contributions@,
        }
    }
}

/// The fields in the order in which they are written.
pub type TranscriptParts<E> = (FullKey<E>, (PartialKey<E>, Vec<PublicKey<E>>));

impl<E: Pairing> CanonicalModel for Transcript<E> {
    type Value = <TranscriptParts<E> as CanonicalModel>::Value;

    open spec fn value_of(self) -> Self::Value {
        (self.key.value_of(), (self.initial_key.value_of(), self.contributions.value_of()))
    }

    open spec fn valid(value: Self::Value) -> bool {
        <TranscriptParts<E> as CanonicalModel>::valid(value)
    }

    open spec fn encoding(value: Self::Value, compress: bool) -> Seq<u8> {
        <TranscriptParts<E> as CanonicalModel>::encoding(value, compress)
    }

    open spec fn encoded_length(value: Self::Value, compress: bool) -> nat {
        <TranscriptParts<E> as CanonicalModel>::encoded_length(value, compress)
    }

    open spec fn decoding(bytes: Seq<u8>, compress: bool, validate: bool) -> Result<
        (Self::Value, nat),
        Seq<char>,
    > {
        <TranscriptParts<E> as CanonicalModel>::decoding(bytes, compress, validate)
    }
}

impl<E: Pairing> Canonical for Transcript<E> {
    fn serialize_with_mode(&self, compress: bool, out: &mut Vec<u8>) -> (res: Result<(), String>) {
        let ghost before = out@;
        self.key.serialize_with_mode(compress, out)?;
        let ghost written_1 = out@;
        self.initial_key.serialize_with_mode(compress, out)?;
        self.contributions.serialize_with_mode(compress, out)?;
        proof {
            lemma_written::<PartialKey<E>, Vec<PublicKey<E>>>(
                written_1,
                self.initial_key.value_of(),
                self.contributions.value_of(),
                compress,
            );
            let tail_1 = (self.initial_key.value_of(), self.contributions.value_of());
            lemma_written::<FullKey<E>, (PartialKey<E>, Vec<PublicKey<E>>)>(
                before,
                self.key.value_of(),
                tail_1,
                compress,
            );
            assert(reads_back::<TranscriptParts<E>>(self.value_of(), compress) ==> reads_back::<Self>(
                self.value_of(),
                compress,
            ));
        }
        Ok(())
    }

    fn deserialize_with_mode(bytes: &[u8], compress: bool, validate: bool) -> (res: Result<
        (Self, usize),
        String,
    >) {
        let read = <TranscriptParts<E> as Canonical>::deserialize_with_mode(
            bytes,
            compress,
            validate,
        )?;
        let ((key, (initial_key, contributions)), length) = read;
        Ok((Transcript { key, initial_key, contributions }, length))
    }

    fn check(&self) -> (res: bool) {
        self.key.check() && self.initial_key.check() && self.contributions.check()
    }
}

/// The points of a query: for every variable the combination of the bases with its column.
pub open spec fn query<A: GroupModel>(
    matrix: Seq<Vec<(A::ScalarField, usize)>>,
    bases: Seq<A>,
    variables: nat,
) -> Seq<A> {
    Seq::new(variables, |i: int| column_combination(matrix, bases, i as usize))
}

/// The points with those of `bases` from `offset` on added to the first `count` of them.
pub open spec fn with_dummies<A: GroupModel>(
    points: Seq<A>,
    bases: Seq<A>,
    offset: nat,
    count: nat,
) -> Seq<A> {
    Seq::new(
        points.len(),
        |i: int|
            if i < count {
                sum(points[i], bases[offset + i])
            } else {
                points[i]
            },
    )
}

/// The sums of three vectors' points.
pub open spec fn sums<A: GroupModel>(a: Seq<A>, b: Seq<A>, c: Seq<A>) -> Seq<A> {
    Seq::new(a.len(), |i: int| sum(sum(a[i], b[i]), c[i]))
}

/// The cross terms: `beta` times the first matrix, `alpha` times the second and the third, with
/// dummy constraints for the instance variables.
pub open spec fn cross_terms<E: Pairing>(
    accum: PreparedModel<E>,
    matrices: Seq<SparseMatrix<E::ScalarField>>,
    constraints: nat,
    instance_variables: nat,
    variables: nat,
) -> Seq<E::G1Affine> {
    with_dummies(
        sums(
            query(matrices[0]@, accum.beta_lagrange_g1, variables),
            query(matrices[1]@, accum.alpha_lagrange_g1, variables),
            query(matrices[2]@, accum.tau_lagrange_g1, variables),
        ),
        accum.beta_lagrange_g1,
        constraints,
        instance_variables,
    )
}

/// The key that the powers give for a circuit with these matrices. Its `gamma` and `delta` are 1.
pub open spec fn specialized<E: Pairing>(
    accum: PreparedModel<E>,
    matrices: Seq<SparseMatrix<E::ScalarField>>,
    constraints: nat,
    instance_variables: nat,
    variables: nat,
) -> ProvingKeyModel<E> {
    let ext = cross_terms(accum, matrices, constraints, instance_variables, variables);
    ProvingKeyModel {
        vk: VerifyingKeyModel {
            alpha_g1: accum.alpha,
            beta_g2: accum.beta_g2,
            gamma_g2: E::G2Affine::exp(1),
            delta_g2: E::G2Affine::exp(1),
            gamma_abc_g1: ext.take(instance_variables as int),
        },
        beta_g1: accum.beta,
        delta_g1: E::G1Affine::exp(1),
        a_query: with_dummies(
            query(matrices[0]@, accum.tau_lagrange_g1, variables),
            accum.tau_lagrange_g1,
            constraints,
            instance_variables,
        ),
        b_g1_query: query(matrices[1]@, accum.tau_lagrange_g1, variables),
        b_g2_query: query(matrices[1]@, accum.tau_lagrange_g2, variables),
        h_query: accum.h_query,
        l_query: ext.skip(instance_variables as int),
    }
}

impl<E: Pairing> TranscriptModel<E> {
    /// The transcript of a key before any contribution.
    pub open spec fn fresh(key: ProvingKeyModel<E>) -> Self {
        TranscriptModel { key, initial_key: key.partial(), contributions: Seq::empty() }
    }

    /// The transcript for a circuit whose constraints fill the domain of the powers.
    pub open spec fn from_finalized(
        accum: PreparedModel<E>,
        circuit: Circuit<E::ScalarField>,
    ) -> Result<Self, ErrorModel> {
        match circuit.constraint_count() {
            Err(error) => Err(error),
            Ok(constraints) => match circuit.matrices {
                Err(error) => Err(ErrorModel::ConstraintSystem(error)),
                Ok(None) => Err(ErrorModel::MissingCSMatrices),
                Ok(Some(matrices)) => if matrices@.len() != 3 {
                    Err(ErrorModel::InvariantViolated("unexpected R1CS matrix arity"@))
                } else if !accum.valid_lengths() {
                    Err(ErrorModel::InvalidPOTSize)
                } else {
                    match domain_size(
                        (constraints + circuit.instance_variables) as nat,
                        E::ScalarField::two_adicity(),
                    ) {
                        None => Err(
                            ErrorModel::ConstraintSystem(SynthesisError::PolynomialDegreeTooLarge),
                        ),
                        Some(size) => if accum.tau_lagrange_g1.len() != size {
                            Err(ErrorModel::InvalidPOTDegree(ceil_log2(size)))
                        } else {
                            Ok(
                                Self::fresh(
                                    specialized(
                                        accum,
                                        matrices@,
                                        constraints as nat,
                                        circuit.instance_variables as nat,
                                        circuit.variables(),
                                    ),
                                ),
                            )
                        },
                    }
                },
            },
        }
    }

    /// The transcript for a circuit from powers in Lagrange form.
    pub open spec fn from_prepared(
        accum: PreparedModel<E>,
        circuit: Circuit<E::ScalarField>,
    ) -> Result<Self, ErrorModel> {
        match circuit.constraint_count() {
            Err(error) => Err(error),
            Ok(constraints) => {
                let needed = ceil_log2((constraints + circuit.instance_variables) as nat);
                if !accum.valid_lengths() {
                    Err(ErrorModel::InvalidPOTSize)
                } else if ceil_log2(accum.tau_lagrange_g1.len()) != needed {
                    Err(ErrorModel::InvalidPOTDegree(needed))
                } else {
                    Self::from_finalized(accum, circuit)
                }
            },
        }
    }

    /// The transcript for a circuit from powers.
    pub open spec fn from_powers(
        accum: AccumulatorModel<E>,
        circuit: Circuit<E::ScalarField>,
    ) -> Result<Self, ErrorModel> {
        match circuit.constraint_count() {
            Err(error) => Err(error),
            Ok(constraints) => {
                let total = (constraints + circuit.instance_variables) as nat;
                if !accum.valid_lengths() {
                    Err(ErrorModel::InvalidPOTSize)
                } else {
                    match domain_size(total, E::ScalarField::two_adicity()) {
                        None => Err(
                            ErrorModel::ConstraintSystem(SynthesisError::PolynomialDegreeTooLarge),
                        ),
                        Some(size) => if accum.tau_powers_g2.len() >= total
                            && accum.tau_powers_g1.len() >= size {
                            match accum.prepared_with_size(size) {
                                Err(error) => Err(error),
                                Ok(prepared) => Self::from_finalized(prepared, circuit),
                            }
                        } else {
                            Err(ErrorModel::NotEnoughPOTDegree(ceil_log2(total)))
                        },
                    }
                }
            },
        }
    }
}

/// Whether a result is the one described.
pub open spec fn transcribes<E: Pairing>(
    res: Result<Transcript<E>, Error>,
    expected: Result<TranscriptModel<E>, ErrorModel>,
) -> bool {
    match res {
        Ok(transcript) => expected == Ok::<TranscriptModel<E>, ErrorModel>(transcript@),
        Err(error) => expected == Err::<TranscriptModel<E>, ErrorModel>(error@),
    }
}

/// Adds the points of `bases` from `offset` on to the first `count` points.
fn add_dummies<A: AffineRepr>(points: &mut Vec<A>, bases: &Vec<A>, offset: usize, count: usize)
    requires
        count <= old(points)@.len(),
        offset + count <= bases@.len(),
    ensures
        final(points)@ == with_dummies(old(points)@, bases@, offset as nat, count as nat),
{
    let ghost before = points@;
    let length: usize = bases.len();
    let mut i: usize = 0;
    while i < count
        invariant
            i <= count <= points@.len(),
            offset + count <= bases@.len(),
            length == bases@.len(),
            points@.len() == before.len(),
            forall|j: int|
                0 <= j < i ==> #[trigger] points@[j] == sum(before[j], bases@[offset + j]),
            forall|j: int| i <= j < before.len() ==> #[trigger] points@[j] == before[j],
        decreases count - i,
    {
        let point = points[i].plus(bases[offset + i]);
        points.set(i, point);
        i = i + 1;
    }
    proof {
        assert(points@ =~= with_dummies(before, bases@, offset as nat, count as nat));
    }
}

/// The sums of three vectors' points.
fn add_all<A: AffineRepr>(a: &Vec<A>, b: &Vec<A>, c: &Vec<A>) -> (res: Vec<A>)
    requires
        a@.len() == b@.len(),
        a@.len() == c@.len(),
    ensures
        res@ == sums(a@, b@, c@),
{
    let mut res: Vec<A> = Vec::new();
    let mut i: usize = 0;
    while i < a.len()
        invariant
            i <= a@.len(),
            a@.len() == b@.len(),
            a@.len() == c@.len(),
            res@.len() == i,
            forall|j: int| 0 <= j < i ==> #[trigger] res@[j] == sum(sum(a@[j], b@[j]), c@[j]),
        decreases a.len() - i,
    {
        res.push(a[i].plus(b[i]).plus(c[i]));
        i = i + 1;
    }
    proof {
        assert(res@ =~= sums(a@, b@, c@));
    }
    res
}

/// Combines the bases with the columns of a transposed matrix.
fn compute_query<A: AffineRepr>(
    matrix: Ghost<Seq<Vec<(A::ScalarField, usize)>>>,
    transposed: &Vec<Vec<(usize, A::ScalarField)>>,
    bases: &Vec<A>,
) -> (res: Vec<A>)
    requires
        matrix@.len() <= bases@.len(),
        forall|i: int|
            0 <= i < transposed@.len() ==> (#[trigger] transposed@[i])@ == column_entries(
                matrix@,
                i as usize,
                matrix@.len(),
            ),
    ensures
        res@ == query(matrix@, bases@, transposed@.len()),
{
    let length: usize = bases.len();
    proof {
        assert forall|i: int, j: int|
            0 <= i < transposed@.len() && 0 <= j < transposed@[i]@.len() implies (
        #[trigger] transposed@[i]@[j]).0 < bases@.len() by {
            lemma_column_entries_index(matrix@, i as usize, matrix@.len());
        }
    }
    let res = batch_compute(transposed, bases);
    proof {
        assert(res@ =~= query(matrix@, bases@, transposed@.len()));
    }
    res
}

impl<E: Pairing> Transcript<E> {
    /// The transcript for a circuit whose constraints fill the domain of the powers.
    fn new_from_prepared_accumulator_finalized_cs(
        accum: &PreparedAccumulator<E>,
        circuit: &Circuit<E::ScalarField>,
    ) -> (res: Result<Self, Error>)
        requires
            accum@.nonempty(),
            circuit.well_formed(),
        ensures
            transcribes(res, TranscriptModel::from_finalized(accum@, *circuit)),
            accum@.in_groups() && res is Ok ==> res->Ok_0@.honest() && res->Ok_0@.all_in_groups(),
    {
        let num_constraints: usize = circuit.r1cs_constraint_count()?;
        let num_instance_variables: usize = circuit.instance_variables;
        let total_constraints: usize = num_constraints + num_instance_variables;
        let matrices = match &circuit.matrices {
            Err(error) => {
                return Err(Error::ConstraintSystem(*error));
            },
            Ok(None) => {
                return Err(Error::MissingCSMatrices);
            },
            Ok(Some(matrices)) => matrices,
        };
        if matrices.len() != 3 {
            return Err(Error::InvariantViolated("unexpected R1CS matrix arity"));
        }
        let (valid, len) = accum.check_pow_len();
        if !valid {
            return Err(Error::InvalidPOTSize);
        }
        let size: usize = match E::ScalarField::domain_size(total_constraints) {
            Some(size) => size,
            None => {
                return Err(Error::ConstraintSystem(SynthesisError::PolynomialDegreeTooLarge));
            },
        };
        proof {
            lemma_domain_size(total_constraints as nat, E::ScalarField::two_adicity());
        }
        if len != size {
            return Err(Error::InvalidPOTDegree(ark_std::log2(size)));
        }
        let num_witnesses: usize = num_instance_variables + circuit.witness_variables;
        proof {
            assert(matrix_fits(
                matrices@[0]@,
                num_constraints as nat,
                num_witnesses as nat,
            ) && matrix_fits(matrices@[1]@, num_constraints as nat, num_witnesses as nat)
                && matrix_fits(matrices@[2]@, num_constraints as nat, num_witnesses as nat));
        }
        let a_by_witness = transpose_matrix(&matrices[0], num_witnesses);
        let b_by_witness = transpose_matrix(&matrices[1], num_witnesses);
        let c_by_witness = transpose_matrix(&matrices[2], num_witnesses);
        let tau_g1 = batch_into_affine(&accum.tau_lagrange_g1);
        let tau_g2 = batch_into_affine(&accum.tau_lagrange_g2);
        let alpha_g1 = batch_into_affine(&accum.alpha_lagrange_g1);
        let beta_g1 = batch_into_affine(&accum.beta_lagrange_g1);
        let ghost a = matrices@[0]@;
        let ghost b = matrices@[1]@;
        let ghost c = matrices@[2]@;
        let mut a_query = compute_query(Ghost(a), &a_by_witness, &tau_g1);
        let b_g1_query = compute_query(Ghost(b), &b_by_witness, &tau_g1);
        let b_g2_query = compute_query(Ghost(b), &b_by_witness, &tau_g2);
        let ext_a = compute_query(Ghost(a), &a_by_witness, &beta_g1);
        let ext_b = compute_query(Ghost(b), &b_by_witness, &alpha_g1);
        let ext_c = compute_query(Ghost(c), &c_by_witness, &tau_g1);
        let mut ext = add_all(&ext_a, &ext_b, &ext_c);
        // Dummy constraints for the instance variables.
        add_dummies(&mut a_query, &tau_g1, num_constraints, num_instance_variables);
        add_dummies(&mut ext, &beta_g1, num_constraints, num_instance_variables);
        let ghost all = ext@;
        let private_cross_terms = ext.split_off(num_instance_variables);
        let key = ProvingKey {
            vk: VerifyingKey {
                alpha_g1: accum.alpha,
                beta_g2: accum.beta_g2,
                gamma_g2: E::G2Affine::generator(),
                delta_g2: E::G2Affine::generator(),
                gamma_abc_g1: ext,
            },
            beta_g1: accum.beta,
            delta_g1: E::G1Affine::generator(),
            a_query,
            b_g1_query,
            b_g2_query,
            h_query: slice_to_vec(&accum.h_query),
            l_query: private_cross_terms,
        };
        proof {
            let expected = specialized(
                accum@,
                matrices@,
                num_constraints as nat,
                num_instance_variables as nat,
                circuit.variables(),
            );
            assert(all == cross_terms(
                accum@,
                matrices@,
                num_constraints as nat,
                num_instance_variables as nat,
                circuit.variables(),
            ));
            assert(key@.vk.gamma_abc_g1 =~= expected.vk.gamma_abc_g1);
            assert(key@.l_query =~= expected.l_query);
            assert(key@.vk == expected.vk);
            assert(key@ == expected);
            if accum@.in_groups() {
                lemma_specialized_in_groups(
                    accum@,
                    matrices@,
                    num_constraints as nat,
                    num_instance_variables as nat,
                    circuit.variables(),
                );
                law_fresh_is_honest(expected);
            }
        }
        let initial_key = PartialKey::from(&key);
        let transcript = Transcript {
            initial_key,
            key: FullKey { key },
            contributions: Vec::new(),
        };
        proof {
            assert(transcript@.contributions =~= Seq::empty());
        }
        Ok(transcript)
    }

    /// The transcript for a circuit from powers in Lagrange form.
    pub fn new_from_prepared_accumulator(
        accum: &PreparedAccumulator<E>,
        circuit: &Circuit<E::ScalarField>,
    ) -> (res: Result<Self, Error>)
        requires
            accum@.nonempty(),
            circuit.well_formed(),
        ensures
            transcribes(res, TranscriptModel::from_prepared(accum@, *circuit)),
            accum@.in_groups() && res is Ok ==> res->Ok_0@.honest() && res->Ok_0@.all_in_groups(),
    {
        let num_constraints: usize = circuit.r1cs_constraint_count()?;
        let total_constraints: usize = num_constraints + circuit.instance_variables;
        let (valid, len) = accum.check_pow_len();
        if !valid {
            return Err(Error::InvalidPOTSize);
        }
        let needed_degree: u32 = ark_std::log2(total_constraints);
        let degree: u32 = ark_std::log2(len);
        if degree != needed_degree {
            return Err(Error::InvalidPOTDegree(needed_degree));
        }
        Self::new_from_prepared_accumulator_finalized_cs(accum, circuit)
    }

    /// The transcript for a circuit from powers.
    pub fn new_from_accumulator(
        accum: &Accumulator<E>,
        circuit: &Circuit<E::ScalarField>,
    ) -> (res: Result<Self, Error>)
        requires
            accum@.tau_powers_g1.len() > 0,
            circuit.well_formed(),
        ensures
            transcribes(res, TranscriptModel::from_powers(accum@, *circuit)),
            accum@.in_groups() && res is Ok ==> res->Ok_0@.honest() && res->Ok_0@.all_in_groups(),
    {
        let num_constraints: usize = circuit.r1cs_constraint_count()?;
        let total_constraints: usize = num_constraints + circuit.instance_variables;
        let (valid, g1_len, g2_len) = accum.check_pow_len();
        if !valid {
            return Err(Error::InvalidPOTSize);
        }
        let size: usize = match E::ScalarField::domain_size(total_constraints) {
            Some(size) => size,
            None => {
                return Err(Error::ConstraintSystem(SynthesisError::PolynomialDegreeTooLarge));
            },
        };
        if !(g2_len >= total_constraints && g1_len >= size) {
            return Err(Error::NotEnoughPOTDegree(ark_std::log2(total_constraints)));
        }
        proof {
            lemma_domain_size(total_constraints as nat, E::ScalarField::two_adicity());
        }
        let prepared = accum.prepare_with_size(size)?;
        proof {
            if accum@.in_groups() {
                law_prepare_stays_in_groups(accum@, size as nat);
            }
        }
        Self::new_from_prepared_accumulator_finalized_cs(&prepared, circuit)
    }

    /// The number of private witnesses whose cross terms are zero: those that no constraint binds.
    pub fn unconstrained_variables(&self) -> (res: usize)
        ensures
            res == self@.unconstrained(),
    {
        let ghost unbound = |point: E::G1Affine| point == E::G1Affine::exp(0);
        let points = &self.key.key.l_query;
        let zero = E::G1Affine::zero();
        let mut count: usize = 0;
        let mut i: usize = 0;
        proof {
            reveal(Seq::filter);
        }
        while i < points.len()
            invariant
                i <= points@.len(),
                count <= i,
                zero == E::G1Affine::exp(0),
                unbound == |point: E::G1Affine| point == E::G1Affine::exp(0),
                count == points@.take(i as int).filter(unbound).len(),
            decreases points.len() - i,
        {
            proof {
                reveal(Seq::filter);
                assert(points@.take(i + 1).drop_last() =~= points@.take(i as int));
                assert(points@.take(i + 1).last() == points@[i as int]);
            }
            if points[i].equals(&zero) {
                count = count + 1;
            }
            i = i + 1;
        }
        proof {
            assert(points@.take(i as int) =~= points@);
        }
        count
    }

    /// Contributes the scalar that is drawn from a generator seeded with `seed`, for a contributor
    /// who signs the context.
    pub fn contribute_seed<F: FnOnce(&[u8; 32]) -> Result<[u8; 65], Error>>(
        &mut self,
        seed: &[u8],
        eth_address: [u8; 20],
        signer: F,
        context: &ContributionContext,
    ) -> (res: Result<(), Error>)
        requires
            E::ScalarField::sampled(blake3_hash(seed@), 0).0.value() != 0,
            can_sign(signer, *context),
        ensures
            signs_and_contributes(
                *old(self),
                *final(self),
                res,
                E::ScalarField::sampled(blake3_hash(seed@), 0).0.value(),
                eth_address,
                signer,
                *context,
            ),
            old(self)@.honest() ==> final(self)@.honest(),
            old(self)@.all_in_groups() ==> final(self)@.all_in_groups(),
    {
        let mut rng = seeded_rng(seed);
        self.contribute_rng(&mut rng, eth_address, signer, context)
    }

    /// Contributes the scalar that is drawn from a generator seeded with `seed`. Where zero is
    /// drawn, nothing is signed, the transcript is left as it is and the result is `None`.
    pub fn checked_contribute_seed<F: FnOnce(&[u8; 32]) -> Result<[u8; 65], Error>>(
        &mut self,
        seed: &[u8],
        eth_address: [u8; 20],
        signer: F,
        context: &ContributionContext,
    ) -> (res: Option<Result<(), Error>>)
        requires
            can_sign(signer, *context),
        ensures
            ({
                let delta = E::ScalarField::sampled(blake3_hash(seed@), 0).0.value();
                &&& delta == 0 ==> res is None && *final(self) == *old(self)
                &&& delta != 0 ==> res is Some && signs_and_contributes(
                    *old(self),
                    *final(self),
                    res->0,
                    delta,
                    eth_address,
                    signer,
                    *context,
                )
            }),
            old(self)@.honest() ==> final(self)@.honest(),
            old(self)@.all_in_groups() ==> final(self)@.all_in_groups(),
    {
        let mut rng = seeded_rng(seed);
        if E::ScalarField::rand(&mut rng).inverse().is_none() {
            None
        } else {
            Some(self.contribute_seed(seed, eth_address, signer, context))
        }
    }

    /// Contributes a scalar drawn from `rng`, for a contributor who signs the context.
    pub fn contribute_rng<F: FnOnce(&[u8; 32]) -> Result<[u8; 65], Error>>(
        &mut self,
        rng: &mut SeededRng,
        eth_address: [u8; 20],
        signer: F,
        context: &ContributionContext,
    ) -> (res: Result<(), Error>)
        requires
            E::ScalarField::sampled(old(rng).seed@, old(rng).position).0.value() != 0,
            can_sign(signer, *context),
        ensures
            ({
                let (delta, position) = E::ScalarField::sampled(old(rng).seed@, old(rng).position);
                &&& final(rng).position == position
                &&& final(rng).seed == old(rng).seed
                &&& signs_and_contributes(
                    *old(self),
                    *final(self),
                    res,
                    delta.value(),
                    eth_address,
                    signer,
                    *context,
                )
            }),
            old(self)@.honest() ==> final(self)@.honest(),
            old(self)@.all_in_groups() ==> final(self)@.all_in_groups(),
    {
        let delta = E::ScalarField::rand(rng);
        self.contribute_signed(delta, eth_address, signer, context)
    }

    /// Contributes a scalar drawn from `rng`. Where zero is drawn, nothing is signed, the
    /// transcript is left as it is and the result is `None`.
    pub fn checked_contribute_rng<F: FnOnce(&[u8; 32]) -> Result<[u8; 65], Error>>(
        &mut self,
        rng: &mut SeededRng,
        eth_address: [u8; 20],
        signer: F,
        context: &ContributionContext,
    ) -> (res: Option<Result<(), Error>>)
        requires
            can_sign(signer, *context),
        ensures
            ({
                let (delta, position) = E::ScalarField::sampled(old(rng).seed@, old(rng).position);
                &&& final(rng).position == position
                &&& final(rng).seed == old(rng).seed
                &&& delta.value() == 0 ==> res is None && *final(self) == *old(self)
                &&& delta.value() != 0 ==> res is Some && signs_and_contributes(
                    *old(self),
                    *final(self),
                    res->0,
                    delta.value(),
                    eth_address,
                    signer,
                    *context,
                )
            }),
            old(self)@.honest() ==> final(self)@.honest(),
            old(self)@.all_in_groups() ==> final(self)@.all_in_groups(),
    {
        let mut ahead = *rng;
        if E::ScalarField::rand(&mut ahead).inverse().is_none() {
            *rng = ahead;
            None
        } else {
            Some(self.contribute_rng(rng, eth_address, signer, context))
        }
    }

    /// Has the context signed, and contributes `delta` with the signature. Where signing fails, the
    /// transcript is left as it is.
    pub fn contribute_signed<F: FnOnce(&[u8; 32]) -> Result<[u8; 65], Error>>(
        &mut self,
        delta: E::ScalarField,
        eth_address: [u8; 20],
        signer: F,
        context: &ContributionContext,
    ) -> (res: Result<(), Error>)
        requires
            delta.value() != 0,
            can_sign(signer, *context),
        ensures
            signs_and_contributes(
                *old(self),
                *final(self),
                res,
                delta.value(),
                eth_address,
                signer,
                *context,
            ),
            old(self)@.honest() ==> final(self)@.honest(),
            old(self)@.all_in_groups() ==> final(self)@.all_in_groups(),
    {
        let message = context.message();
        let signed = signer(&message);
        match signed {
            Ok(eth_signature) => {
                let res = self.contribute(delta, eth_address, eth_signature);
                proof {
                    assert(signing(signer, message, signed));
                }
                res
            },
            Err(error) => {
                proof {
                    assert(signing(signer, message, signed));
                }
                Err(error)
            },
        }
    }

    /// Contributes `delta`: proves knowledge of it for the key's challenge, multiplies the deltas
    /// by it and the queries by its inverse, and records the contribution.
    ///
    /// A transcript of honest contributions stays one.
    pub fn contribute(
        &mut self,
        delta: E::ScalarField,
        eth_address: [u8; 20],
        eth_signature: [u8; 65],
    ) -> (res: Result<(), Error>)
        requires
            delta.value() != 0,
        ensures
            res is Ok,
            final(self)@ == old(self)@.contributed(delta.value(), eth_address, eth_signature),
            old(self)@.honest() ==> final(self)@.honest(),
            old(self)@.all_in_groups() ==> final(self)@.all_in_groups(),
    {
        let inverse = delta.inverse().unwrap();
        proof {
            delta.lemma_value();
            inverse.lemma_value();
            lemma_inverse_mod(delta.value(), inverse.value(), E::ScalarField::order());
        }
        have_full_orders::<E>();
        let challenge = self.key.challenge()?;
        let proof_made = RatioProof::<E>::generate(delta, &challenge)?;
        batch_mul_fixed_scalar(&mut self.key.key.l_query, inverse);
        batch_mul_fixed_scalar(&mut self.key.key.h_query, inverse);
        self.key.key.delta_g1 = self.key.key.delta_g1.times(delta);
        self.key.key.vk.delta_g2 = self.key.key.vk.delta_g2.times(delta);
        self.contributions.push(
            PublicKey {
                delta_g1: self.key.key.delta_g1,
                delta_g2: self.key.key.vk.delta_g2,
                proof: proof_made,
                eth_address,
                eth_signature,
            },
        );
        proof {
            let expected = old(self)@.contributed(delta.value(), eth_address, eth_signature);
            assert(self@.key.vk == expected.key.vk);
            assert(self@.key == expected.key);
            assert(self@.contributions =~= expected.contributions);
            if old(self)@.honest() {
                law_contribution_stays_honest(
                    old(self)@,
                    delta.value(),
                    eth_address,
                    eth_signature,
                );
            }
            if old(self)@.all_in_groups() {
                law_transcript_stays_in_groups(
                    old(self)@,
                    delta.value(),
                    eth_address,
                    eth_signature,
                );
            }
        }
        Ok(())
    }

    /// Verifies that every contribution comes with a proof of knowledge that holds for its
    /// challenge and multiplied the delta by the scalar that the proof is about, and that the
    /// queries were divided by the same.
    ///
    /// A transcript of honest contributions is accepted.
    pub fn verify(&self) -> (res: Result<(), Error>)
        requires
            self@.verifiable(),
        ensures
            accepts(res, self@.verified()),
            self@.honest() ==> res is Ok,
    {
        self.checked_verify().unwrap()
    }

    /// Verifies the transcript, or gives `None` where verification comes to a pairing that is not
    /// defined, or to queries of other lengths than they had at first.
    pub fn checked_verify(&self) -> (res: Option<Result<(), Error>>)
        ensures
            res is Some <==> self@.verifiable(),
            res matches Some(result) ==> accepts(result, self@.verified()),
            self@.honest() ==> res matches Some(Ok(_)),
    {
        have_full_orders::<E>();
        proof {
            if self@.honest() {
                law_honest_is_accepted(self@);
            }
        }
        let mut delta_g2 = self.initial_key.delta_g2;
        let mut challenge = match self.initial_key.challenge() {
            Ok(challenge) => challenge,
            Err(error) => {
                return Some(Err(error));
            },
        };
        let mut i: usize = 0;
        while i < self.contributions.len()
            invariant
                i <= self.contributions@.len(),
                delta_g2 == self@.previous_delta(i as int),
                challenge@ == self@.previous_challenge(i as int),
                self@.links_hold(i as int),
                forall|j: int| 0 <= j < i ==> #[trigger] self@.link_comparable(j),
                self@.honest() ==> self@.verifiable() && self@.verified() is Ok,
            decreases self.contributions.len() - i,
        {
            let contribution = &self.contributions[i];
            match check_link::<E>(contribution, &challenge, delta_g2) {
                None => {
                    proof {
                        assert(!self@.link_comparable(i as int));
                    }
                    return None;
                },
                Some(false) => {
                    proof {
                        lemma_refused_link(self@, i as int);
                    }
                    return Some(Err(Error::InvalidRatioProof));
                },
                Some(true) => {
                    proof {
                        assert(self@.link_comparable(i as int));
                        assert(self@.link_holds(i as int));
                    }
                },
            }
            delta_g2 = contribution.delta_g2;
            challenge = match contribution.challenge() {
                Ok(challenge) => challenge,
                Err(error) => {
                    return Some(Err(error));
                },
            };
            i = i + 1;
        }
        match checked_same_ratio_swap::<E>(
            (self.initial_key.delta_g1, self.key.key.delta_g1),
            (self.initial_key.delta_g2, delta_g2),
        ) {
            None => None,
            Some(false) => Some(Err(Error::InvalidRatioProof)),
            Some(true) => verify_queries::<E>(
                &self.key.key.h_query,
                &self.initial_key.h_query,
                &self.key.key.l_query,
                &self.initial_key.l_query,
                self.initial_key.delta_g2,
                self.key.key.vk.delta_g2,
            ),
        }
    }

    /// Verifies that one partial key was made of another by multiplying the deltas by the scalar
    /// that `proof_made` proves knowledge of, and dividing the queries by it. The proof has to hold
    /// for the challenge of the key before.
    pub fn verify_key_transform(
        prev: &PartialKey<E>,
        next: &PartialKey<E>,
        proof_made: &RatioProof<E>,
    ) -> (res: Result<(), Error>)
        requires
            transform_verifiable(prev@, next@, *proof_made),
        ensures
            accepts(res, transform_verified(prev@, next@, *proof_made)),
    {
        Self::checked_verify_key_transform(prev, next, proof_made).unwrap()
    }

    /// Verifies that one partial key was made of another, or gives `None` where that comes to a
    /// pairing that is not defined, or to queries of different lengths.
    pub fn checked_verify_key_transform(
        prev: &PartialKey<E>,
        next: &PartialKey<E>,
        proof_made: &RatioProof<E>,
    ) -> (res: Option<Result<(), Error>>)
        ensures
            res is Some <==> transform_verifiable(prev@, next@, *proof_made),
            res matches Some(result) ==> accepts(
                result,
                transform_verified(prev@, next@, *proof_made),
            ),
    {
        let challenge = match prev.challenge() {
            Ok(challenge) => challenge,
            Err(error) => {
                return Some(Err(error));
            },
        };
        match proof_made.checked_verify(&challenge) {
            None => {
                return None;
            },
            Some(Ok(true)) => {},
            Some(_) => {
                return Some(Err(Error::InvalidRatioProof));
            },
        }
        match checked_same_ratio_swap::<E>(proof_made.get_g1(), (prev.delta_g2, next.delta_g2)) {
            None => {
                return None;
            },
            Some(true) => {},
            Some(false) => {
                return Some(Err(Error::InvalidRatioProof));
            },
        }
        match checked_same_ratio_swap::<E>(
            (prev.delta_g1, next.delta_g1),
            (prev.delta_g2, next.delta_g2),
        ) {
            None => None,
            Some(false) => Some(Err(Error::InvalidRatioProof)),
            Some(true) => verify_queries::<E>(
                &next.h_query,
                &prev.h_query,
                &next.l_query,
                &prev.l_query,
                prev.delta_g2,
                next.delta_g2,
            ),
        }
    }

    /// Verifies the transcript against the one that the powers give for the circuit.
    pub fn verify_from_accumulator(
        &self,
        accum: &Accumulator<E>,
        circuit: &Circuit<E::ScalarField>,
    ) -> (res: Result<(), Error>)
        requires
            accum@.tau_powers_g1.len() > 0,
            circuit.well_formed(),
            TranscriptModel::from_powers(accum@, *circuit) matches Ok(initial)
                ==> self@.verifiable_from(initial),
        ensures
            accepts(
                res,
                match TranscriptModel::from_powers(accum@, *circuit) {
                    Err(error) => Err(error),
                    Ok(initial) => self@.verified_from(initial),
                },
            ),
    {
        let initial_transcript = Transcript::new_from_accumulator(accum, circuit)?;
        self.verify_from_initial_transcript(&initial_transcript)
    }

    /// Verify transcript against a pre-computed initial transcript.
    /// This is much faster than verify_from_accumulator as it skips the expensive
    /// IFFT and MSM computations needed to regenerate the initial transcript.
    pub fn verify_from_initial_transcript(&self, initial_transcript: &Transcript<E>) -> (res:
        Result<(), Error>)
        requires
            self@.verifiable_from(initial_transcript@),
        ensures
            accepts(res, self@.verified_from(initial_transcript@)),
    {
        self.checked_verify_from_initial_transcript(initial_transcript).unwrap()
    }

    /// The first part in which the transcript does not start as the initial one does.
    fn find_mismatch(&self, initial_transcript: &Transcript<E>) -> (res: Option<&'static str>)
        ensures
            match res {
                Some(part) => self@.mismatch(initial_transcript@) == Some(part@),
                None => self@.mismatch(initial_transcript@) is None,
            },
    {
        let initial = &initial_transcript.key.key;
        let own = &self.key.key;
        if !initial_transcript.initial_key.equals(&self.initial_key) {
            return Some("initial_key");
        }
        if !initial.beta_g1.equals(&own.beta_g1) {
            return Some("pk: beta_g1");
        }
        if !points_equal(&initial.a_query, &own.a_query) {
            return Some("pk: a_query");
        }
        if !points_equal(&initial.b_g1_query, &own.b_g1_query) {
            return Some("pk: b_g1");
        }
        if !points_equal(&initial.b_g2_query, &own.b_g2_query) {
            return Some("pk: b_g2");
        }
        if !initial.vk.alpha_g1.equals(&own.vk.alpha_g1) {
            return Some("vk: alpha_g1");
        }
        if !initial.vk.beta_g2.equals(&own.vk.beta_g2) {
            return Some("vk: beta_g2");
        }
        if !initial.vk.gamma_g2.equals(&own.vk.gamma_g2) {
            return Some("vk: gamma_g2");
        }
        if !points_equal(&initial.vk.gamma_abc_g1, &own.vk.gamma_abc_g1) {
            return Some("vk: gamma_abc_g1");
        }
        None
    }

    /// Verifies the transcript against a pre-computed initial transcript, or gives `None` where it
    /// starts as that one does, and verification comes to a pairing that is not defined or to
    /// queries of other lengths than they had at first.
    pub fn checked_verify_from_initial_transcript(
        &self,
        initial_transcript: &Transcript<E>,
    ) -> (res: Option<Result<(), Error>>)
        ensures
            res is Some <==> self@.verifiable_from(initial_transcript@),
            res matches Some(result) ==> accepts(
                result,
                self@.verified_from(initial_transcript@),
            ),
    {
        match self.find_mismatch(initial_transcript) {
            Some(part) => Some(Err(Error::InvalidKey(part))),
            None => self.checked_verify(),
        }
    }

    /// Verifies the transcript against the one that the powers give for the circuit, or gives
    /// `None` where it starts as that one does, and verification comes to a pairing that is not
    /// defined or to queries of other lengths than they had at first.
    pub fn checked_verify_from_accumulator(
        &self,
        accum: &Accumulator<E>,
        circuit: &Circuit<E::ScalarField>,
    ) -> (res: Option<Result<(), Error>>)
        requires
            accum@.tau_powers_g1.len() > 0,
            circuit.well_formed(),
        ensures
            res is Some <==> (TranscriptModel::from_powers(accum@, *circuit) matches Ok(initial)
                ==> self@.verifiable_from(initial)),
            res matches Some(result) ==> accepts(
                result,
                match TranscriptModel::from_powers(accum@, *circuit) {
                    Err(error) => Err(error),
                    Ok(initial) => self@.verified_from(initial),
                },
            ),
    {
        match Transcript::new_from_accumulator(accum, circuit) {
            Err(error) => Some(Err(error)),
            Ok(initial_transcript) => self.checked_verify_from_initial_transcript(
                &initial_transcript,
            ),
        }
    }

    /// Reads a transcript whose points are written in full.
    pub fn deserialize_uncompressed(bytes: &[u8]) -> (res: Result<Self, Error>)
        ensures
            match res {
                Ok(transcript) => Self::decoding(bytes@, false, true) matches Ok((value, _))
                    && value == transcript.value_of(),
                Err(error) => Self::decoding(bytes@, false, true) matches Err(message) && error@
                    == ErrorModel::Serialization(message),
            },
            forall|written: Self|
                bytes@ == #[trigger] Self::encoding(written.value_of(), false) && reads_back::<Self>(
                    written.value_of(),
                    false,
                ) ==> res is Ok && res->Ok_0@ == written@,
            forall|written: Self, tail: Seq<u8>|
                bytes@ == #[trigger] (Self::encoding(written.value_of(), false) + tail)
                    && reads_back::<Self>(written.value_of(), false) ==> res is Ok && res->Ok_0@
                    == written@,
            forall|written: Self, count: nat|
                bytes@ == #[trigger] Self::encoding(written.value_of(), false).take(count as int)
                    && count < Self::encoding(written.value_of(), false).len() && reads_back::<Self>(
                    written.value_of(),
                    false,
                ) ==> res is Err,
    {
        proof {
            assert(bytes@ + Seq::<u8>::empty() =~= bytes@);
            assert forall|written: Self, read: Self| written.value_of() == read.value_of() implies
                #[trigger] written@ == #[trigger] read@ by {
                lemma_value_is_view(written, read);
            }
        }
        match Self::deserialize_with_mode(bytes, false, true) {
            Ok((transcript, _)) => Ok(transcript),
            Err(message) => Err(Error::Serialization(message)),
        }
    }
}

proof fn lemma_points_same<A: AffineRepr>(a: Vec<A>, b: Vec<A>)
    ensures
        a.value_of() == b.value_of() ==> a@ == b@,
{
    lemma_points_value(a);
    lemma_points_value(b);
}

/// Transcripts with the same encoded values are the same.
proof fn lemma_value_is_view<E: Pairing>(a: Transcript<E>, b: Transcript<E>)
    requires
        a.value_of() == b.value_of(),
    ensures
        a@ == b@,
{
    let (k, l) = (a.key.key, b.key.key);
    k.vk.alpha_g1.lemma_canonical();
    l.vk.alpha_g1.lemma_canonical();
    k.vk.beta_g2.lemma_canonical();
    l.vk.beta_g2.lemma_canonical();
    k.vk.gamma_g2.lemma_canonical();
    l.vk.gamma_g2.lemma_canonical();
    k.vk.delta_g2.lemma_canonical();
    l.vk.delta_g2.lemma_canonical();
    k.beta_g1.lemma_canonical();
    l.beta_g1.lemma_canonical();
    k.delta_g1.lemma_canonical();
    l.delta_g1.lemma_canonical();
    lemma_points_same(k.vk.gamma_abc_g1, l.vk.gamma_abc_g1);
    lemma_points_same(k.a_query, l.a_query);
    lemma_points_same(k.b_g1_query, l.b_g1_query);
    lemma_points_same(k.b_g2_query, l.b_g2_query);
    lemma_points_same(k.h_query, l.h_query);
    lemma_points_same(k.l_query, l.l_query);
    let (i, j) = (a.initial_key, b.initial_key);
    i.delta_g1.lemma_canonical();
    j.delta_g1.lemma_canonical();
    i.delta_g2.lemma_canonical();
    j.delta_g2.lemma_canonical();
    lemma_points_same(i.h_query, j.h_query);
    lemma_points_same(i.l_query, j.l_query);
    let (c, d) = (a.contributions, b.contributions);
    assert(c.value_of().len() == c@.len() && d.value_of().len() == d@.len());
    assert forall|n: int| 0 <= n < c@.len() implies #[trigger] c@[n] == d@[n] by {
        let (p, q) = (c@[n], d@[n]);
        assert(c.value_of()[n] == p.value_of() && d.value_of()[n] == q.value_of());
        p.delta_g1.lemma_canonical();
        q.delta_g1.lemma_canonical();
        p.delta_g2.lemma_canonical();
        q.delta_g2.lemma_canonical();
        p.proof.point.lemma_canonical();
        q.proof.point.lemma_canonical();
        p.proof.matching_point.lemma_canonical();
        q.proof.matching_point.lemma_canonical();
        assert(p.eth_address =~= q.eth_address);
        assert(p.eth_signature =~= q.eth_signature);
        assert(p.proof == q.proof);
    }
    assert(c@ =~= d@);
    assert(a@.key.vk == b@.key.vk);
    assert(a@.key == b@.key);
    assert(a@.initial_key == b@.initial_key);
}

/// Whether a result is the one described.
pub open spec fn accepts(res: Result<(), Error>, expected: Result<(), ErrorModel>) -> bool {
    match res {
        Ok(()) => expected is Ok,
        Err(error) => expected == Err::<(), ErrorModel>(error@),
    }
}

/// Whether the signer takes the message of the context.
pub open spec fn can_sign<F: FnOnce(&[u8; 32]) -> Result<[u8; 65], Error>>(
    signer: F,
    context: ContributionContext,
) -> bool {
    forall|message: [u8; 32]|
        message@ == context.digest() ==> #[trigger] call_requires(signer, (&message,))
}

/// Whether the signer may answer a message with this.
pub open spec fn signing<F: FnOnce(&[u8; 32]) -> Result<[u8; 65], Error>>(
    signer: F,
    message: [u8; 32],
    signed: Result<[u8; 65], Error>,
) -> bool {
    call_ensures(signer, (&message,), signed)
}

/// Whether the signer was asked to sign the context, and the contribution was made with the
/// signature, or left out with the signer's error.
pub open spec fn signs_and_contributes<
    E: Pairing,
    F: FnOnce(&[u8; 32]) -> Result<[u8; 65], Error>,
>(
    before: Transcript<E>,
    after: Transcript<E>,
    res: Result<(), Error>,
    delta: nat,
    eth_address: [u8; 20],
    signer: F,
    context: ContributionContext,
) -> bool {
    exists|message: [u8; 32], signed: Result<[u8; 65], Error>|
        message@ == context.digest() && #[trigger] signing(signer, message, signed)
            && match signed {
            Ok(eth_signature) => res is Ok && after@ == before@.contributed(
                delta,
                eth_address,
                eth_signature,
            ),
            Err(error) => res == Err::<(), Error>(error) && after == before,
        }
}

/// Whether a query was divided by what the delta was multiplied by.
pub open spec fn query_holds<E: Pairing>(
    next: Seq<E::G1Affine>,
    prev: Seq<E::G1Affine>,
    prev_delta: E::G2Affine,
    next_delta: E::G2Affine,
) -> bool {
    same_ratio_swap_spec::<E>(merge_ratio(next, prev), (prev_delta, next_delta))
}

/// What verifying the queries gives.
pub open spec fn queries_verified<E: Pairing>(
    next: PartialKeyModel<E>,
    prev: PartialKeyModel<E>,
) -> Result<(), ErrorModel> {
    if !query_holds::<E>(next.h_query, prev.h_query, prev.delta_g2, next.delta_g2) {
        Err(ErrorModel::InconsistentHChange)
    } else if !query_holds::<E>(next.l_query, prev.l_query, prev.delta_g2, next.delta_g2) {
        Err(ErrorModel::InconsistentLChange)
    } else {
        Ok(())
    }
}

/// Whether two queries can be compared: they have the same length, and what they merge to has
/// pairings with the deltas.
pub open spec fn query_comparable<E: Pairing>(
    next: Seq<E::G1Affine>,
    prev: Seq<E::G1Affine>,
    prev_delta: E::G2Affine,
    next_delta: E::G2Affine,
) -> bool {
    next.len() == prev.len() && same_ratio_swap_defined::<E>(
        merge_ratio(next, prev),
        (prev_delta, next_delta),
    )
}

/// Whether a contribution can be compared with what was before it: the proof can be verified for
/// the challenge, and where it holds, the pairings with the deltas are defined.
pub open spec fn contribution_comparable<E: Pairing>(
    contribution: PublicKey<E>,
    challenge: Seq<u8>,
    prev_delta: E::G2Affine,
) -> bool {
    &&& contribution.proof.verifiable(challenge)
    &&& contribution.proof.holds(challenge) ==> same_ratio_swap_defined::<E>(
        (E::G1Affine::exp(1), contribution.proof.point),
        (prev_delta, contribution.delta_g2),
    )
}

/// Whether the proof of a contribution holds for the challenge, and the contribution changed the
/// delta by the scalar that the proof is about.
pub open spec fn contribution_holds<E: Pairing>(
    contribution: PublicKey<E>,
    challenge: Seq<u8>,
    prev_delta: E::G2Affine,
) -> bool {
    &&& contribution.proof.holds(challenge)
    &&& same_ratio_swap_spec::<E>(
        (E::G1Affine::exp(1), contribution.proof.point),
        (prev_delta, contribution.delta_g2),
    )
}

/// Whether the queries can be compared, the `l` queries only where the `h` queries hold.
pub open spec fn queries_comparable<E: Pairing>(
    next: PartialKeyModel<E>,
    prev: PartialKeyModel<E>,
) -> bool {
    query_comparable::<E>(next.h_query, prev.h_query, prev.delta_g2, next.delta_g2) && (
    query_holds::<E>(next.h_query, prev.h_query, prev.delta_g2, next.delta_g2)
        ==> query_comparable::<E>(next.l_query, prev.l_query, prev.delta_g2, next.delta_g2))
}

impl<E: Pairing> ProvingKeyModel<E> {
    /// Whether every point lies in its group.
    pub open spec fn in_groups(self) -> bool {
        &&& in_group(self.vk.alpha_g1)
        &&& in_group(self.vk.beta_g2)
        &&& in_group(self.vk.gamma_g2)
        &&& all_in_group(self.vk.gamma_abc_g1)
        &&& in_group(self.beta_g1)
        &&& all_in_group(self.a_query)
        &&& all_in_group(self.b_g1_query)
        &&& all_in_group(self.b_g2_query)
        &&& self.partial().in_groups()
    }
}

impl<E: Pairing> PublicKey<E> {
    /// Whether every point lies in its group.
    pub open spec fn in_groups(self) -> bool {
        in_group(self.delta_g1) && in_group(self.delta_g2) && self.proof.in_groups()
    }
}

impl<E: Pairing> PartialKeyModel<E> {
    /// Whether every point lies in its group.
    pub open spec fn in_groups(self) -> bool {
        &&& in_group(self.delta_g1)
        &&& in_group(self.delta_g2)
        &&& all_in_group(self.h_query)
        &&& all_in_group(self.l_query)
    }
}

impl<E: Pairing> PartialKey<E> {
    /// Whether two partial keys are the same.
    pub fn equals(&self, other: &PartialKey<E>) -> (res: bool)
        ensures
            res == (self@ == other@),
    {
        self.delta_g1.equals(&other.delta_g1) && self.delta_g2.equals(&other.delta_g2)
            && points_equal(&self.h_query, &other.h_query) && points_equal(
            &self.l_query,
            &other.l_query,
        )
    }
}

/// Whether the verification of a transform is defined: all that it comes to can be compared.
pub open spec fn transform_verifiable<E: Pairing>(
    prev: PartialKeyModel<E>,
    next: PartialKeyModel<E>,
    proof_made: RatioProof<E>,
) -> bool {
    let own = (E::G1Affine::exp(1), proof_made.point);
    let deltas = (prev.delta_g2, next.delta_g2);
    &&& proof_made.verifiable(prev.challenge())
    &&& proof_made.holds(prev.challenge()) ==> same_ratio_swap_defined::<E>(own, deltas)
    &&& proof_made.holds(prev.challenge()) && same_ratio_swap_spec::<E>(own, deltas)
        ==> same_ratio_swap_defined::<E>((prev.delta_g1, next.delta_g1), deltas)
    &&& transform_ratios_hold(prev, next, proof_made) ==> queries_comparable(next, prev)
}

/// Whether the proof holds for the challenge of `prev`, and both deltas changed by the scalar that
/// it is about.
pub open spec fn transform_ratios_hold<E: Pairing>(
    prev: PartialKeyModel<E>,
    next: PartialKeyModel<E>,
    proof_made: RatioProof<E>,
) -> bool {
    &&& proof_made.holds(prev.challenge())
    &&& same_ratio_swap_spec::<E>(
        (E::G1Affine::exp(1), proof_made.point),
        (prev.delta_g2, next.delta_g2),
    )
    &&& same_ratio_swap_spec::<E>(
        (prev.delta_g1, next.delta_g1),
        (prev.delta_g2, next.delta_g2),
    )
}

/// What verifying that `next` was made of `prev` gives.
pub open spec fn transform_verified<E: Pairing>(
    prev: PartialKeyModel<E>,
    next: PartialKeyModel<E>,
    proof_made: RatioProof<E>,
) -> Result<(), ErrorModel> {
    if transform_ratios_hold(prev, next, proof_made) {
        queries_verified(next, prev)
    } else {
        Err(ErrorModel::InvalidRatioProof)
    }
}

impl<E: Pairing> TranscriptModel<E> {
    /// The transcript after the contribution of a scalar of value `delta`.
    pub open spec fn contributed(
        self,
        delta: nat,
        eth_address: [u8; 20],
        eth_signature: [u8; 65],
    ) -> Self {
        let partial = self.key.partial();
        let next = partial.contributed(delta);
        TranscriptModel {
            key: self.key.with_partial(next),
            initial_key: self.initial_key,
            contributions: self.contributions.push(
                PublicKey {
                    delta_g1: next.delta_g1,
                    delta_g2: next.delta_g2,
                    proof: RatioProof::<E>::generated(delta, partial.challenge()),
                    eth_address,
                    eth_signature,
                },
            ),
        }
    }

    /// Whether every point that verification looks at lies in its group.
    pub open spec fn in_groups(self) -> bool {
        &&& self.key.partial().in_groups()
        &&& self.initial_key.in_groups()
        &&& forall|i: int|
            0 <= i < self.contributions.len() ==> in_group(
                (#[trigger] self.contributions[i]).delta_g2,
            ) && self.contributions[i].proof.in_groups()
    }

    /// Whether every point lies in its group, those that verification does not look at, too.
    pub open spec fn all_in_groups(self) -> bool {
        &&& self.key.in_groups()
        &&& self.initial_key.in_groups()
        &&& forall|i: int|
            0 <= i < self.contributions.len() ==> (#[trigger] self.contributions[i]).in_groups()
    }

    /// Whether the queries have the lengths that they had at first.
    pub open spec fn lengths_fit(self) -> bool {
        self.key.h_query.len() == self.initial_key.h_query.len() && self.key.l_query.len()
            == self.initial_key.l_query.len()
    }

    /// The number of private witnesses whose cross terms are zero.
    pub open spec fn unconstrained(self) -> nat {
        self.key.l_query.filter(|point: E::G1Affine| point == E::G1Affine::exp(0)).len()
    }

    /// The delta in the second group before contribution `i`.
    pub open spec fn previous_delta(self, i: int) -> E::G2Affine {
        if i <= 0 {
            self.initial_key.delta_g2
        } else {
            self.contributions[i - 1].delta_g2
        }
    }

    /// What contribution `i` was challenged with.
    pub open spec fn previous_challenge(self, i: int) -> Seq<u8> {
        if i <= 0 {
            self.initial_key.challenge()
        } else {
            challenge_bytes::<E>(
                self.contributions[i - 1].delta_g1,
                self.contributions[i - 1].delta_g2,
            )
        }
    }

    /// Whether the proof of contribution `i` holds for its challenge, and the contribution changed
    /// the delta by the scalar that the proof is about.
    pub open spec fn link_holds(self, i: int) -> bool {
        contribution_holds(
            self.contributions[i],
            self.previous_challenge(i),
            self.previous_delta(i),
        )
    }

    /// Whether the first `count` contributions hold.
    pub open spec fn links_hold(self, count: int) -> bool {
        forall|i: int| 0 <= i < count ==> #[trigger] self.link_holds(i)
    }

    /// Whether contribution `i` can be compared with what was before it.
    pub open spec fn link_comparable(self, i: int) -> bool {
        contribution_comparable(
            self.contributions[i],
            self.previous_challenge(i),
            self.previous_delta(i),
        )
    }

    /// Whether all contributions hold, and the delta in the first group changed as the one in the
    /// second.
    pub open spec fn ratios_hold(self) -> bool {
        &&& self.links_hold(self.contributions.len() as int)
        &&& same_ratio_swap_spec::<E>(
            (self.initial_key.delta_g1, self.key.delta_g1),
            (
                self.initial_key.delta_g2,
                self.previous_delta(self.contributions.len() as int),
            ),
        )
    }

    /// Whether the verification is defined: all that it comes to can be compared. It does not come
    /// to what follows the first ratio that does not hold.
    pub open spec fn verifiable(self) -> bool {
        &&& forall|i: int|
            0 <= i < self.contributions.len() && self.links_hold(i)
                ==> #[trigger] self.link_comparable(i)
        &&& self.links_hold(self.contributions.len() as int) ==> same_ratio_swap_defined::<E>(
            (self.initial_key.delta_g1, self.key.delta_g1),
            (
                self.initial_key.delta_g2,
                self.previous_delta(self.contributions.len() as int),
            ),
        )
        &&& self.ratios_hold() ==> queries_comparable(self.key.partial(), self.initial_key)
    }

    /// Whether the verification against an initial transcript is defined.
    pub open spec fn verifiable_from(self, initial: Self) -> bool {
        self.mismatch(initial) is None ==> self.verifiable()
    }

    /// What verification gives.
    pub open spec fn verified(self) -> Result<(), ErrorModel> {
        if self.ratios_hold() {
            queries_verified(self.key.partial(), self.initial_key)
        } else {
            Err(ErrorModel::InvalidRatioProof)
        }
    }

    /// The first part in which the transcript does not start as `initial` does.
    pub open spec fn mismatch(self, initial: Self) -> Option<Seq<char>> {
        if initial.initial_key != self.initial_key {
            Some("initial_key"@)
        } else if initial.key.beta_g1 != self.key.beta_g1 {
            Some("pk: beta_g1"@)
        } else if initial.key.a_query != self.key.a_query {
            Some("pk: a_query"@)
        } else if initial.key.b_g1_query != self.key.b_g1_query {
            Some("pk: b_g1"@)
        } else if initial.key.b_g2_query != self.key.b_g2_query {
            Some("pk: b_g2"@)
        } else if initial.key.vk.alpha_g1 != self.key.vk.alpha_g1 {
            Some("vk: alpha_g1"@)
        } else if initial.key.vk.beta_g2 != self.key.vk.beta_g2 {
            Some("vk: beta_g2"@)
        } else if initial.key.vk.gamma_g2 != self.key.vk.gamma_g2 {
            Some("vk: gamma_g2"@)
        } else if initial.key.vk.gamma_abc_g1 != self.key.vk.gamma_abc_g1 {
            Some("vk: gamma_abc_g1"@)
        } else {
            None
        }
    }

    /// What verification against an initial transcript gives.
    pub open spec fn verified_from(self, initial: Self) -> Result<(), ErrorModel> {
        match self.mismatch(initial) {
            Some(part) => Err(ErrorModel::InvalidKey(part)),
            None => self.verified(),
        }
    }

    /// Whether the proof of contribution `i` holds for its challenge, and the contribution
    /// multiplied the delta by the scalar that the proof is about.
    pub open spec fn link_is_honest(self, i: int) -> bool {
        &&& self.contributions[i].proof.holds(self.previous_challenge(i))
        &&& log(self.contributions[i].delta_g2) == mul_mod(
            log(self.previous_delta(i)),
            log(self.contributions[i].proof.point),
            E::ScalarField::order(),
        )
    }

    /// Whether contributions of the product `delta` made the transcript what it is.
    pub open spec fn honest_by(self, delta: nat) -> bool {
        let order = E::ScalarField::order();
        &&& self.in_groups()
        &&& self.lengths_fit()
        &&& log(self.key.delta_g1) == mul_mod(log(self.initial_key.delta_g1), delta, order)
        &&& log(self.key.vk.delta_g2) == mul_mod(log(self.initial_key.delta_g2), delta, order)
        &&& forall|i: int|
            0 <= i < self.key.h_query.len() ==> log(self.initial_key.h_query[i]) == mul_mod(
                log(#[trigger] self.key.h_query[i]),
                delta,
                order,
            )
        &&& forall|i: int|
            0 <= i < self.key.l_query.len() ==> log(self.initial_key.l_query[i]) == mul_mod(
                log(#[trigger] self.key.l_query[i]),
                delta,
                order,
            )
        &&& forall|i: int|
            0 <= i < self.contributions.len() ==> #[trigger] self.link_is_honest(i)
        &&& self.previous_delta(self.contributions.len() as int) == self.key.vk.delta_g2
        &&& self.previous_challenge(self.contributions.len() as int)
            == self.key.partial().challenge()
    }

    /// Whether nothing but contributions made the transcript what it is.
    pub open spec fn honest(self) -> bool {
        exists|delta: nat| #[trigger] self.honest_by(delta)
    }
}

/// Verification ends at the first contribution that does not hold.
proof fn lemma_refused_link<E: Pairing>(transcript: TranscriptModel<E>, i: int)
    requires
        0 <= i < transcript.contributions.len(),
        forall|j: int| 0 <= j < i ==> #[trigger] transcript.link_comparable(j),
        transcript.link_comparable(i),
        !transcript.link_holds(i),
    ensures
        transcript.verifiable(),
        transcript.verified() == Err::<(), ErrorModel>(ErrorModel::InvalidRatioProof),
{
    assert forall|j: int|
        0 <= j < transcript.contributions.len() && transcript.links_hold(j) implies
        #[trigger] transcript.link_comparable(j) by {
        if j > i {
            assert(transcript.link_holds(i));
        }
    }
}

/// Whether a contribution holds, or `None` where it can not be compared with what was before it.
fn check_link<E: Pairing>(
    contribution: &PublicKey<E>,
    challenge: &[u8],
    prev_delta: E::G2Affine,
) -> (res: Option<bool>)
    ensures
        res is Some <==> contribution_comparable(*contribution, challenge@, prev_delta),
        res matches Some(valid) ==> valid == contribution_holds(
            *contribution,
            challenge@,
            prev_delta,
        ),
{
    match contribution.proof.checked_verify(challenge) {
        None => None,
        Some(Ok(true)) => checked_same_ratio_swap::<E>(
            contribution.proof.get_g1(),
            (prev_delta, contribution.delta_g2),
        ),
        Some(_) => Some(false),
    }
}

/// Whether a query was divided by what the delta was multiplied by, or `None` where that can not be
/// compared.
fn check_query<E: Pairing>(
    next: &Vec<E::G1Affine>,
    prev: &Vec<E::G1Affine>,
    prev_delta: E::G2Affine,
    next_delta: E::G2Affine,
) -> (res: Option<bool>)
    ensures
        res is Some <==> query_comparable::<E>(next@, prev@, prev_delta, next_delta),
        res matches Some(valid) ==> valid == query_holds::<E>(
            next@,
            prev@,
            prev_delta,
            next_delta,
        ),
{
    if next.len() != prev.len() {
        return None;
    }
    let merge = merge_ratio_affine_vec(next, prev);
    checked_same_ratio_swap::<E>(merge, (prev_delta, next_delta))
}

/// Verifies that the queries were divided by what the delta was multiplied by, or gives `None`
/// where that can not be compared.
fn verify_queries<E: Pairing>(
    next_h: &Vec<E::G1Affine>,
    prev_h: &Vec<E::G1Affine>,
    next_l: &Vec<E::G1Affine>,
    prev_l: &Vec<E::G1Affine>,
    prev_delta: E::G2Affine,
    next_delta: E::G2Affine,
) -> (res: Option<Result<(), Error>>)
    ensures
        res is Some <==> query_comparable::<E>(next_h@, prev_h@, prev_delta, next_delta) && (
        query_holds::<E>(next_h@, prev_h@, prev_delta, next_delta) ==> query_comparable::<E>(
            next_l@,
            prev_l@,
            prev_delta,
            next_delta,
        )),
        res matches Some(result) ==> accepts(
            result,
            if !query_holds::<E>(next_h@, prev_h@, prev_delta, next_delta) {
                Err(ErrorModel::InconsistentHChange)
            } else if !query_holds::<E>(next_l@, prev_l@, prev_delta, next_delta) {
                Err(ErrorModel::InconsistentLChange)
            } else {
                Ok(())
            },
        ),
{
    match check_query::<E>(next_h, prev_h, prev_delta, next_delta) {
        None => None,
        Some(false) => Some(Err(Error::InconsistentHChange)),
        Some(true) => match check_query::<E>(next_l, prev_l, prev_delta, next_delta) {
            None => None,
            Some(false) => Some(Err(Error::InconsistentLChange)),
            Some(true) => Some(Ok(())),
        },
    }
}

} // verus!
