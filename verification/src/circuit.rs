use vstd::prelude::*;
use vstd::string::StringExecFns;

use crate::algebra::{lemma_multiple_in_group, lemma_sum_in_group};
use crate::curve::{
    all_in_group, in_group, multiple, sum, AffineRepr, GroupModel, PrimeField, ScalarModel,
};
use crate::error::{Error, ErrorModel, SynthesisError};
use crate::text::{decimal, decimal_text};

verus! {

/// A matrix by its rows, and a row by the coefficients in it and their columns.
pub type SparseMatrix<F> = Vec<Vec<(F, usize)>>;

/// A finalized constraint system.
#[derive(Debug, PartialEq)]
pub struct Circuit<F> {
    /// The labels of the predicates, and how many constraints each has. Of several that are not
    /// R1CS, the first is reported.
    pub predicates: Vec<(String, usize)>,
    pub instance_variables: usize,
    pub witness_variables: usize,
    /// The matrices of the R1CS predicate, or `None` where there are none of it.
    pub matrices: Result<Option<Vec<SparseMatrix<F>>>, SynthesisError>,
}

/// The label of the R1CS predicate.
pub open spec fn r1cs_label() -> Seq<char> {
    "R1CS"@
}

/// How many constraints the first of `count` predicates with a label has.
pub open spec fn predicate_count(
    predicates: Seq<(String, usize)>,
    label: Seq<char>,
    count: nat,
) -> Option<usize>
    decreases count,
{
    if count == 0 {
        None
    } else {
        match predicate_count(predicates, label, (count - 1) as nat) {
            Some(constraints) => Some(constraints),
            None => if predicates[count - 1].0@ == label {
                Some(predicates[count - 1].1)
            } else {
                None
            },
        }
    }
}

/// The first of `count` predicates with another label than R1CS.
pub open spec fn other_predicate(predicates: Seq<(String, usize)>, count: nat) -> Option<int>
    decreases count,
{
    if count == 0 {
        None
    } else {
        match other_predicate(predicates, (count - 1) as nat) {
            Some(i) => Some(i),
            None => if predicates[count - 1].0@ != r1cs_label() {
                Some(count - 1)
            } else {
                None
            },
        }
    }
}

/// The message for a predicate that is not supported.
pub open spec fn unsupported_predicate(label: Seq<char>, constraints: nat) -> Seq<char> {
    "non-R1CS predicate '"@ + label + "' ("@ + decimal_text(constraints)
        + " constraints) is not supported"@
}

/// The entries of a row in column `column`, under the row's index `row`.
pub open spec fn row_entries<F>(
    entries: Seq<(F, usize)>,
    row: usize,
    column: usize,
    count: nat,
) -> Seq<(usize, F)>
    decreases count,
{
    if count == 0 {
        Seq::empty()
    } else {
        let before = row_entries(entries, row, column, (count - 1) as nat);
        if entries[count - 1].1 == column {
            before.push((row, entries[count - 1].0))
        } else {
            before
        }
    }
}

/// The entries of the first `rows` rows in column `column`: the index of the row and the
/// coefficient.
pub open spec fn column_entries<F>(
    matrix: Seq<Vec<(F, usize)>>,
    column: usize,
    rows: nat,
) -> Seq<(usize, F)>
    decreases rows,
{
    if rows == 0 {
        Seq::empty()
    } else {
        let last = matrix[rows - 1]@;
        column_entries(matrix, column, (rows - 1) as nat) + row_entries(
            last,
            (rows - 1) as usize,
            column,
            last.len(),
        )
    }
}

/// The sum of the points at the first `count` entries' indices, multiplied by their coefficients.
pub open spec fn combination<A: GroupModel>(
    bases: Seq<A>,
    entries: Seq<(usize, A::ScalarField)>,
    count: nat,
) -> A
    decreases count,
{
    if count == 0 {
        A::exp(0)
    } else {
        let (index, scalar) = entries[count - 1];
        sum(
            combination(bases, entries, (count - 1) as nat),
            multiple(bases[index as int], scalar.value()),
        )
    }
}

/// The combination of the points with the entries of a column.
pub open spec fn column_combination<A: GroupModel>(
    matrix: Seq<Vec<(A::ScalarField, usize)>>,
    bases: Seq<A>,
    column: usize,
) -> A {
    let entries = column_entries(matrix, column, matrix.len());
    combination(bases, entries, entries.len())
}

/// Whether a matrix has `rows` rows and no entry outside of `columns` columns.
pub open spec fn matrix_fits<F>(matrix: Seq<Vec<(F, usize)>>, rows: nat, columns: nat) -> bool {
    matrix.len() == rows && forall|r: int, k: int|
        0 <= r < matrix.len() && 0 <= k < matrix[r]@.len() ==> (#[trigger] matrix[r]@[k]).1
            < columns
}

impl<F> Circuit<F> {
    /// The number of variables.
    pub open spec fn variables(self) -> nat {
        (self.instance_variables + self.witness_variables) as nat
    }

    /// The number of R1CS constraints, where that is the only predicate.
    pub open spec fn constraint_count(self) -> Result<usize, ErrorModel> {
        match predicate_count(self.predicates@, r1cs_label(), self.predicates@.len()) {
            None => Err(ErrorModel::Custom("missing R1CS predicate"@)),
            Some(constraints) => match other_predicate(self.predicates@, self.predicates@.len()) {
                Some(i) => Err(
                    ErrorModel::Custom(
                        unsupported_predicate(
                            self.predicates@[i].0@,
                            self.predicates@[i].1 as nat,
                        ),
                    ),
                ),
                None => Ok(constraints),
            },
        }
    }

    /// Whether the matrices fit the numbers of constraints and variables.
    pub open spec fn well_formed(self) -> bool {
        &&& self.variables() <= usize::MAX
        &&& self.constraint_count() matches Ok(constraints) ==> constraints
            + self.instance_variables <= usize::MAX && (self.matrices matches Ok(Some(matrices))
            ==> forall|m: int|
            0 <= m < matrices@.len() ==> matrix_fits(
                #[trigger] matrices@[m]@,
                constraints as nat,
                self.variables(),
            ))
    }

    /// The number of R1CS constraints. Any other predicate is an error.
    pub fn r1cs_constraint_count(&self) -> (res: Result<usize, Error>)
        ensures
            match res {
                Ok(constraints) => self.constraint_count() == Ok::<usize, ErrorModel>(
                    constraints,
                ),
                Err(error) => self.constraint_count() == Err::<usize, ErrorModel>(error@),
            },
    {
        let r1cs = "R1CS".to_owned();
        let mut found: Option<usize> = None;
        let mut i: usize = 0;
        while i < self.predicates.len()
            invariant
                i <= self.predicates@.len(),
                r1cs@ == r1cs_label(),
                found == predicate_count(self.predicates@, r1cs_label(), i as nat),
            decreases self.predicates.len() - i,
        {
            if found.is_none() && self.predicates[i].0 == r1cs {
                found = Some(self.predicates[i].1);
            }
            i = i + 1;
        }
        let constraints: usize = match found {
            Some(constraints) => constraints,
            None => {
                return Err(Error::Custom("missing R1CS predicate".to_owned()));
            },
        };
        let mut i: usize = 0;
        while i < self.predicates.len()
            invariant
                i <= self.predicates@.len(),
                r1cs@ == r1cs_label(),
                predicate_count(self.predicates@, r1cs_label(), self.predicates@.len()) == Some(
                    constraints,
                ),
                other_predicate(self.predicates@, i as nat) is None,
            decreases self.predicates.len() - i,
        {
            if self.predicates[i].0 != r1cs {
                let mut message = "non-R1CS predicate '".to_owned();
                message.append(self.predicates[i].0.as_str());
                message.append("' (");
                message.append(decimal(self.predicates[i].1).as_str());
                message.append(" constraints) is not supported");
                proof {
                    lemma_other_predicate(self.predicates@, i as nat, self.predicates@.len());
                }
                return Err(Error::Custom(message));
            }
            i = i + 1;
        }
        Ok(constraints)
    }

    /// Whether the matrices fit the numbers of constraints and variables.
    pub fn is_well_formed(&self) -> (res: bool)
        ensures
            res == self.well_formed(),
    {
        if self.instance_variables > usize::MAX - self.witness_variables {
            return false;
        }
        let variables: usize = self.instance_variables + self.witness_variables;
        match self.r1cs_constraint_count() {
            Err(_) => true,
            Ok(constraints) => {
                if constraints > usize::MAX - self.instance_variables {
                    return false;
                }
                match &self.matrices {
                    Ok(Some(matrices)) => all_fit(matrices, constraints, variables),
                    _ => true,
                }
            },
        }
    }
}

proof fn lemma_other_predicate(predicates: Seq<(String, usize)>, i: nat, count: nat)
    requires
        i < count,
        other_predicate(predicates, i) is None,
        predicates[i as int].0@ != r1cs_label(),
    ensures
        other_predicate(predicates, count) == Some(i as int),
    decreases count,
{
    if i + 1 < count {
        lemma_other_predicate(predicates, i, (count - 1) as nat);
    }
}

/// Whether a matrix has `rows` rows and no entry outside of `columns` columns.
fn fits<F>(matrix: &SparseMatrix<F>, rows: usize, columns: usize) -> (res: bool)
    ensures
        res == matrix_fits(matrix@, rows as nat, columns as nat),
{
    if matrix.len() != rows {
        return false;
    }
    let mut r: usize = 0;
    while r < matrix.len()
        invariant
            r <= matrix@.len(),
            matrix@.len() == rows,
            forall|j: int, k: int|
                0 <= j < r && 0 <= k < matrix@[j]@.len() ==> (#[trigger] matrix@[j]@[k]).1
                    < columns,
        decreases matrix.len() - r,
    {
        let row = &matrix[r];
        let mut k: usize = 0;
        while k < row.len()
            invariant
                k <= row@.len(),
                r < matrix@.len(),
                matrix@.len() == rows,
                row@ == matrix@[r as int]@,
                forall|j: int, k: int|
                    0 <= j < r && 0 <= k < matrix@[j]@.len() ==> (#[trigger] matrix@[j]@[k]).1
                        < columns,
                forall|j: int| 0 <= j < k ==> (#[trigger] matrix@[r as int]@[j]).1 < columns,
            decreases row.len() - k,
        {
            if row[k].1 >= columns {
                proof {
                    assert(matrix@[r as int]@[k as int].1 >= columns);
                }
                return false;
            }
            k = k + 1;
        }
        r = r + 1;
    }
    true
}

/// Whether every matrix has `rows` rows and no entry outside of `columns` columns.
fn all_fit<F>(matrices: &Vec<SparseMatrix<F>>, rows: usize, columns: usize) -> (res: bool)
    ensures
        res == (forall|m: int|
            0 <= m < matrices@.len() ==> matrix_fits(
                #[trigger] matrices@[m]@,
                rows as nat,
                columns as nat,
            )),
{
    let mut m: usize = 0;
    while m < matrices.len()
        invariant
            m <= matrices@.len(),
            forall|j: int|
                0 <= j < m ==> matrix_fits(#[trigger] matrices@[j]@, rows as nat, columns as nat),
        decreases matrices.len() - m,
    {
        if !fits(&matrices[m], rows, columns) {
            proof {
                assert(!matrix_fits(matrices@[m as int]@, rows as nat, columns as nat));
            }
            return false;
        }
        m = m + 1;
    }
    true
}

/// Transpose a sparse matrix from constraint-indexed to witness-indexed representation.
/// Returns a vector where each element contains (constraint_index, coefficient) pairs
/// for a given witness variable.
pub(crate) fn transpose_matrix<F: Copy>(matrix: &SparseMatrix<F>, num_witnesses: usize) -> (res:
    Vec<Vec<(usize, F)>>)
    requires
        matrix_fits(matrix@, matrix@.len(), num_witnesses as nat),
    ensures
        res@.len() == num_witnesses,
        forall|i: int|
            0 <= i < num_witnesses ==> (#[trigger] res@[i])@ == column_entries(
                matrix@,
                i as usize,
                matrix@.len(),
            ),
{
    let mut transposed: Vec<Vec<(usize, F)>> = Vec::new();
    let mut i: usize = 0;
    while i < num_witnesses
        invariant
            i <= num_witnesses,
            transposed@.len() == i,
            forall|j: int|
                0 <= j < i ==> (#[trigger] transposed@[j])@ == Seq::<(usize, F)>::empty(),
        decreases num_witnesses - i,
    {
        transposed.push(Vec::new());
        i = i + 1;
    }
    let mut r: usize = 0;
    while r < matrix.len()
        invariant
            r <= matrix@.len(),
            matrix_fits(matrix@, matrix@.len(), num_witnesses as nat),
            transposed@.len() == num_witnesses,
            forall|j: int|
                0 <= j < num_witnesses ==> (#[trigger] transposed@[j])@ == column_entries(
                    matrix@,
                    j as usize,
                    r as nat,
                ),
        decreases matrix.len() - r,
    {
        let row = &matrix[r];
        let mut k: usize = 0;
        proof {
            assert forall|j: int| 0 <= j < num_witnesses implies (#[trigger] transposed@[j])@
                == column_entries(matrix@, j as usize, r as nat) + row_entries(
                row@,
                r,
                j as usize,
                0,
            ) by {
                assert(column_entries(matrix@, j as usize, r as nat) + Seq::empty()
                    =~= column_entries(matrix@, j as usize, r as nat));
            }
        }
        while k < row.len()
            invariant
                k <= row@.len(),
                r < matrix@.len(),
                row@ == matrix@[r as int]@,
                matrix_fits(matrix@, matrix@.len(), num_witnesses as nat),
                transposed@.len() == num_witnesses,
                forall|j: int|
                    0 <= j < num_witnesses ==> (#[trigger] transposed@[j])@ == column_entries(
                        matrix@,
                        j as usize,
                        r as nat,
                    ) + row_entries(row@, r, j as usize, k as nat),
            decreases row.len() - k,
        {
            let (coefficient, column) = row[k];
            let ghost before = transposed@;
            proof {
                assert(matrix@[r as int]@[k as int].1 < num_witnesses);
            }
            transposed[column].push((r, coefficient));
            k = k + 1;
            proof {
                assert forall|j: int| 0 <= j < num_witnesses implies (#[trigger] transposed@[j])@
                    == column_entries(matrix@, j as usize, r as nat) + row_entries(
                    row@,
                    r,
                    j as usize,
                    k as nat,
                ) by {
                    assert(before[j]@ == column_entries(matrix@, j as usize, r as nat)
                        + row_entries(row@, r, j as usize, (k - 1) as nat));
                    assert(transposed@[j]@ =~= column_entries(matrix@, j as usize, r as nat)
                        + row_entries(row@, r, j as usize, k as nat));
                }
            }
        }
        r = r + 1;
    }
    transposed
}

proof fn lemma_row_entries_index<F>(entries: Seq<(F, usize)>, row: usize, column: usize, count: nat)
    ensures
        forall|j: int|
            0 <= j < row_entries(entries, row, column, count).len() ==> (#[trigger] row_entries(
                entries,
                row,
                column,
                count,
            )[j]).0 == row,
    decreases count,
{
    if count > 0 {
        lemma_row_entries_index(entries, row, column, (count - 1) as nat);
        let own = row_entries(entries, row, column, count);
        let before = row_entries(entries, row, column, (count - 1) as nat);
        assert forall|j: int| 0 <= j < own.len() implies (#[trigger] own[j]).0 == row by {
            if j < before.len() {
                assert(before[j].0 == row);
            }
        }
    }
}

/// The entries of a column lie in the rows.
pub proof fn lemma_column_entries_index<F>(
    matrix: Seq<Vec<(F, usize)>>,
    column: usize,
    rows: nat,
)
    requires
        rows <= matrix.len() <= usize::MAX,
    ensures
        forall|j: int|
            0 <= j < column_entries(matrix, column, rows).len() ==> (#[trigger] column_entries(
                matrix,
                column,
                rows,
            )[j]).0 < rows,
    decreases rows,
{
    if rows > 0 {
        lemma_column_entries_index(matrix, column, (rows - 1) as nat);
        lemma_row_entries_index(
            matrix[rows - 1]@,
            (rows - 1) as usize,
            column,
            matrix[rows - 1]@.len(),
        );
        let before = column_entries(matrix, column, (rows - 1) as nat);
        let last = matrix[rows - 1]@;
        let own = row_entries(last, (rows - 1) as usize, column, last.len());
        assert forall|j: int| 0 <= j < (before + own).len() implies (#[trigger] (before
            + own)[j]).0 < rows by {
            if j < before.len() {
                assert(before[j].0 < rows);
            } else {
                assert(own[j - before.len()].0 == rows - 1);
            }
        }
    }
}

/// A combination of points of the group lies in the group.
pub proof fn lemma_combination_in_group<A: GroupModel>(
    bases: Seq<A>,
    entries: Seq<(usize, A::ScalarField)>,
    count: nat,
)
    requires
        all_in_group(bases),
        count <= entries.len(),
        forall|j: int| 0 <= j < entries.len() ==> (#[trigger] entries[j]).0 < bases.len(),
    ensures
        in_group(combination(bases, entries, count)),
    decreases count,
{
    if count == 0 {
        let any = arbitrary::<A::ScalarField>();
        any.lemma_value();
        assert(in_group(A::exp(0)));
    } else {
        let (index, scalar) = entries[count - 1];
        lemma_combination_in_group(bases, entries, (count - 1) as nat);
        lemma_multiple_in_group(bases[index as int], scalar.value());
        lemma_sum_in_group(
            combination(bases, entries, (count - 1) as nat),
            multiple(bases[index as int], scalar.value()),
        );
    }
}

/// Combines the points with the entries of every column.
pub(crate) fn batch_compute<A: AffineRepr>(
    entries_by_witness: &Vec<Vec<(usize, A::ScalarField)>>,
    bases: &Vec<A>,
) -> (res: Vec<A>)
    requires
        forall|i: int, j: int|
            0 <= i < entries_by_witness@.len() && 0 <= j < entries_by_witness@[i]@.len() ==> (
            #[trigger] entries_by_witness@[i]@[j]).0 < bases@.len(),
    ensures
        res@.len() == entries_by_witness@.len(),
        forall|i: int|
            0 <= i < res@.len() ==> #[trigger] res@[i] == combination(
                bases@,
                entries_by_witness@[i]@,
                entries_by_witness@[i]@.len(),
            ),
{
    let mut res: Vec<A> = Vec::new();
    let mut i: usize = 0;
    while i < entries_by_witness.len()
        invariant
            i <= entries_by_witness@.len(),
            res@.len() == i,
            forall|i: int, j: int|
                0 <= i < entries_by_witness@.len() && 0 <= j < entries_by_witness@[i]@.len() ==> (
                #[trigger] entries_by_witness@[i]@[j]).0 < bases@.len(),
            forall|j: int|
                0 <= j < i ==> #[trigger] res@[j] == combination(
                    bases@,
                    entries_by_witness@[j]@,
                    entries_by_witness@[j]@.len(),
                ),
        decreases entries_by_witness.len() - i,
    {
        let entries = &entries_by_witness[i];
        let mut total = A::zero();
        let mut j: usize = 0;
        while j < entries.len()
            invariant
                j <= entries@.len(),
                i < entries_by_witness@.len(),
                entries@ == entries_by_witness@[i as int]@,
                forall|i: int, j: int|
                    0 <= i < entries_by_witness@.len() && 0 <= j < entries_by_witness@[i]@.len()
                        ==> (#[trigger] entries_by_witness@[i]@[j]).0 < bases@.len(),
                total == combination(bases@, entries@, j as nat),
            decreases entries.len() - j,
        {
            let (index, scalar) = entries[j];
            proof {
                assert(entries_by_witness@[i as int]@[j as int].0 < bases@.len());
            }
            total = total.plus(bases[index].times(scalar));
            j = j + 1;
        }
        res.push(total);
        i = i + 1;
    }
    res
}

} // verus!
