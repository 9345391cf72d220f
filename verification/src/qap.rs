use vstd::arithmetic::div_mod::{
    lemma_add_mod_noop, lemma_mod_bound, lemma_mod_twice, lemma_small_mod,
};
use vstd::arithmetic::mul::lemma_mul_is_commutative;
use vstd::arithmetic::power::{lemma_pow0, lemma_pow_multiplies, pow};
use vstd::arithmetic::power2::{lemma_pow2_pos, lemma_pow2_strictly_increases, pow2};
use vstd::prelude::*;

use crate::accumulator::{lemma_pow_nonnegative, power_value, AccumulatorModel, PreparedModel};
use crate::algebra::{
    full_orders, lemma_exp_log, lemma_log_exp, lemma_multiple_in_group, lemma_sum_in_group,
    mul_mod,
};
use crate::circuit::{
    column_combination, column_entries, combination, lemma_column_entries_index, matrix_fits,
    other_predicate, predicate_count, row_entries, Circuit, SparseMatrix,
};
use crate::curve::{
    all_in_group, domain_root, exps, full_order, ifft, in_group, log, logs, multiple, sum,
    GroupModel, Pairing, ScalarModel,
};
use crate::error::ErrorModel;
use crate::laws::{
    law_h_query_vanishes, law_prepare_stays_in_groups, lemma_domain_root, lemma_exps,
    lemma_ifft_in_group, lemma_logs, lemma_order,
};
use crate::math::{
    ceil_log2, dft, domain_size, evaluate, inverse_dft, lemma_pow2_is_power, lemma_power_at_least,
    lemma_power_of_two_fixed, power_at_least, power_of_two,
};
use crate::transcript::{cross_terms, specialized, TranscriptModel};
use crate::transform::{
    law_dft_inverts, lemma_evaluate, lemma_log_of_power, lemma_same_add, lemma_same_mul,
    lemma_total_add, lemma_total_equal, lemma_total_same, lemma_total_scale, lemma_total_single,
    lemma_total_swap, same, total,
};

verus! {

/// The sum of the first `count` entries of a row that lie in a column.
pub open spec fn row_total<F: ScalarModel>(
    entries: Seq<(F, usize)>,
    column: nat,
    count: nat,
) -> int {
    total(
        |k: nat|
            if entries[k as int].1 == column {
                entries[k as int].0.value() as int
            } else {
                0
            },
        count,
    )
}

/// The coefficient of a variable in a constraint: the sum of the entries of the constraint's row
/// in the variable's column. There is none past the rows.
pub open spec fn coefficient<F: ScalarModel>(
    matrix: Seq<Vec<(F, usize)>>,
    row: nat,
    column: nat,
) -> int {
    if row < matrix.len() {
        row_total(matrix[row as int]@, column, matrix[row as int]@.len())
    } else {
        0
    }
}

/// The coefficient of a variable in a constraint of the first matrix. Behind the `constraints`
/// rows every instance variable has a row of its own, with the coefficient 1.
pub open spec fn bound_coefficient<F: ScalarModel>(
    matrix: Seq<Vec<(F, usize)>>,
    constraints: nat,
    instance_variables: nat,
    row: nat,
    column: nat,
) -> int {
    coefficient(matrix, row, column) + (if column < instance_variables && row == constraints
        + column {
        1int
    } else {
        0
    })
}

/// The sum of the first `count` points' logarithms, each with its weight.
pub open spec fn weighted<A: GroupModel>(
    points: Seq<A>,
    weight: spec_fn(nat) -> int,
    count: nat,
) -> int {
    total(|j: nat| log(points[j as int]) * weight(j), count)
}

/// The logarithms at the rows of entries, times their coefficients.
spec fn entry_terms<A: GroupModel>(
    bases: Seq<A>,
    entries: Seq<(usize, A::ScalarField)>,
) -> spec_fn(nat) -> int {
    |k: nat| (log(bases[entries[k as int].0 as int]) * entries[k as int].1.value()) as int
}

spec fn entries_total<A: GroupModel>(
    bases: Seq<A>,
    entries: Seq<(usize, A::ScalarField)>,
    count: nat,
) -> int {
    total(entry_terms(bases, entries), count)
}

proof fn lemma_combination_log<A: GroupModel>(
    bases: Seq<A>,
    entries: Seq<(usize, A::ScalarField)>,
    count: nat,
)
    requires
        full_order::<A>(),
        all_in_group(bases),
        count <= entries.len(),
        forall|j: int| 0 <= j < entries.len() ==> (#[trigger] entries[j]).0 < bases.len(),
    ensures
        in_group(combination(bases, entries, count)),
        same(
            log(combination(bases, entries, count)) as int,
            entries_total(bases, entries, count),
            A::ScalarField::order() as int,
        ),
    decreases count,
{
    let m = A::ScalarField::order() as int;
    lemma_order::<A>();
    if count == 0 {
        lemma_log_exp::<A>(0);
    } else {
        let last = (count - 1) as nat;
        let (index, scalar) = entries[last as int];
        let base = bases[index as int];
        let before = combination(bases, entries, last);
        lemma_combination_log(bases, entries, last);
        lemma_multiple_in_group(base, scalar.value());
        lemma_sum_in_group(before, multiple(base, scalar.value()));
        let own = (log(base) * scalar.value()) as int;
        lemma_mod_twice(own, m);
        lemma_same_add(
            log(before) as int,
            entries_total(bases, entries, last),
            log(multiple(base, scalar.value())) as int,
            own,
            m,
        );
        lemma_mod_twice((log(before) + log(multiple(base, scalar.value()))) as int, m);
    }
}

proof fn lemma_entries_add<A: GroupModel>(
    bases: Seq<A>,
    a: Seq<(usize, A::ScalarField)>,
    b: Seq<(usize, A::ScalarField)>,
    count: nat,
)
    requires
        count <= b.len(),
    ensures
        entries_total(bases, a + b, a.len() + count) == entries_total(bases, a, a.len())
            + entries_total(bases, b, count),
    decreases count,
{
    if count == 0 {
        let f = entry_terms(bases, a + b);
        let g = entry_terms(bases, a);
        assert forall|k: nat| k < a.len() implies #[trigger] f(k) == g(k) by {
            assert((a + b)[k as int] == a[k as int]);
        }
        lemma_total_equal(f, g, a.len());
    } else {
        let last = (count - 1) as nat;
        lemma_entries_add(bases, a, b, last);
        assert((a + b)[(a.len() + last) as int] == b[last as int]);
    }
}

proof fn lemma_row_entries_total<A: GroupModel>(
    bases: Seq<A>,
    entries: Seq<(A::ScalarField, usize)>,
    row: usize,
    column: usize,
    count: nat,
)
    requires
        count <= entries.len(),
    ensures
        ({
            let own = row_entries(entries, row, column, count);
            entries_total(bases, own, own.len()) == log(bases[row as int]) * row_total(
                entries,
                column as nat,
                count,
            )
        }),
    decreases count,
{
    let base = log(bases[row as int]) as int;
    if count == 0 {
        assert(base * 0 == 0);
    } else {
        let last = (count - 1) as nat;
        lemma_row_entries_total(bases, entries, row, column, last);
        let before = row_entries(entries, row, column, last);
        let t = row_total(entries, column as nat, last);
        if entries[last as int].1 == column {
            let value = entries[last as int].0.value() as int;
            let one = seq![(row, entries[last as int].0)];
            assert(before.push((row, entries[last as int].0)) =~= before + one);
            lemma_entries_add(bases, before, one, 1);
            assert(entries_total(bases, one, 1) == base * value) by {
                reveal_with_fuel(total, 2);
            }
            assert(base * (t + value) == base * t + base * value) by (nonlinear_arith);
        } else {
            assert(base * (t + 0) == base * t);
        }
    }
}

proof fn lemma_column_total<A: GroupModel>(
    matrix: Seq<Vec<(A::ScalarField, usize)>>,
    bases: Seq<A>,
    column: usize,
    rows: nat,
)
    requires
        rows <= matrix.len() <= usize::MAX,
    ensures
        ({
            let own = column_entries(matrix, column, rows);
            entries_total(bases, own, own.len()) == weighted(
                bases,
                |j: nat| coefficient(matrix, j, column as nat),
                rows,
            )
        }),
    decreases rows,
{
    if rows > 0 {
        let last = (rows - 1) as nat;
        lemma_column_total(matrix, bases, column, last);
        let before = column_entries(matrix, column, last);
        let row = matrix[last as int]@;
        let own = row_entries(row, last as usize, column, row.len());
        lemma_row_entries_total(bases, row, last as usize, column, row.len());
        lemma_entries_add(bases, before, own, own.len());
    }
}

/// Terms that are zero add nothing.
proof fn lemma_total_tail(f: spec_fn(nat) -> int, n: nat, more: nat)
    requires
        n <= more,
        forall|i: nat| n <= i < more ==> #[trigger] f(i) == 0,
    ensures
        total(f, more) == total(f, n),
    decreases more,
{
    if n < more {
        lemma_total_tail(f, n, (more - 1) as nat);
        assert(f((more - 1) as nat) == 0);
    }
}

/// The combination of points with a column has the sum of their logarithms, each times the
/// coefficient in its row.
pub proof fn lemma_column_log<A: GroupModel>(
    matrix: Seq<Vec<(A::ScalarField, usize)>>,
    bases: Seq<A>,
    column: usize,
)
    requires
        full_order::<A>(),
        all_in_group(bases),
        matrix.len() <= bases.len() <= usize::MAX,
    ensures
        in_group(column_combination(matrix, bases, column)),
        same(
            log(column_combination(matrix, bases, column)) as int,
            weighted(bases, |j: nat| coefficient(matrix, j, column as nat), bases.len()),
            A::ScalarField::order() as int,
        ),
{
    let rows = matrix.len();
    let own = column_entries(matrix, column, rows);
    lemma_column_entries_index(matrix, column, rows);
    lemma_combination_log(bases, own, own.len());
    lemma_column_total(matrix, bases, column, rows);
    let f = |j: nat| log(bases[j as int]) * coefficient(matrix, j, column as nat);
    assert forall|j: nat| rows <= j < bases.len() implies #[trigger] f(j) == 0 by {
        assert(log(bases[j as int]) * 0 == 0);
    }
    lemma_total_tail(f, rows, bases.len());
    let weight = |j: nat| coefficient(matrix, j, column as nat);
    let g = |j: nat| log(bases[j as int]) * weight(j);
    lemma_total_equal(f, g, rows);
    lemma_total_equal(f, g, bases.len());
}

/// The products of two sequences.
pub open spec fn products(x: Seq<nat>, y: Seq<nat>) -> spec_fn(nat) -> int {
    |j: nat| (x[j as int] * y[j as int]) as int
}

proof fn lemma_transformed_term(x: Seq<nat>, y: nat, root: nat, j: nat, m: nat)
    requires
        m > 0,
        j < x.len(),
    ensures
        same(
            (dft(x, root, m)[j as int] * y) as int,
            total(|k: nat| (y * x[k as int]) * pow(pow(root as int, j), k), x.len()),
            m as int,
        ),
{
    let n = x.len();
    let mi = m as int;
    let z = pow(root as int, j);
    lemma_pow_nonnegative(root, j);
    lemma_evaluate(x, z as nat, n);
    let terms = |k: nat| x[k as int] * pow(z, k);
    let value = total(terms, n);
    lemma_total_equal(|k: nat| x[k as int] * pow(z as nat as int, k), terms, n);
    assert(dft(x, root, m)[j as int] == value % mi);
    lemma_mod_twice(value, mi);
    lemma_same_mul(value % mi, value, y as int, y as int, mi);
    lemma_total_scale(terms, y as int, n);
    lemma_mul_is_commutative(value, y as int);
    let f = |k: nat| y as int * terms(k);
    let g = |k: nat| (y * x[k as int]) * pow(z, k);
    assert forall|k: nat| k < n implies #[trigger] f(k) == g(k) by {
        assert(y as int * (x[k as int] * pow(z, k)) == (y * x[k as int]) * pow(z, k))
            by (nonlinear_arith);
    }
    lemma_total_equal(f, g, n);
}

/// In a sum of products the transform can be taken of either factor.
proof fn lemma_dft_symmetric(x: Seq<nat>, y: Seq<nat>, root: nat, m: nat)
    requires
        m > 0,
        x.len() == y.len(),
    ensures
        same(
            total(products(dft(x, root, m), y), x.len()),
            total(products(x, dft(y, root, m)), x.len()),
            m as int,
        ),
{
    let n = x.len();
    let mi = m as int;
    let a = dft(x, root, m);
    let b = dft(y, root, m);
    let r = root as int;
    let double = |j: nat, k: nat| (y[j as int] * x[k as int]) * pow(pow(r, j), k);
    let left = products(a, y);
    let rows = |j: nat| total(|k: nat| double(j, k), n);
    assert forall|j: nat| j < n implies same(#[trigger] left(j), rows(j), mi) by {
        lemma_transformed_term(x, y[j as int], root, j, m);
        let f = |k: nat| (y[j as int] * x[k as int]) * pow(pow(r, j), k);
        let g = |k: nat| double(j, k);
        lemma_total_equal(f, g, n);
    }
    lemma_total_same(left, rows, n, mi);
    let right = products(x, b);
    let columns = |k: nat| total(|j: nat| double(j, k), n);
    assert forall|k: nat| k < n implies same(#[trigger] right(k), columns(k), mi) by {
        lemma_transformed_term(y, x[k as int], root, k, m);
        let f = |j: nat| (x[k as int] * y[j as int]) * pow(pow(r, k), j);
        let g = |j: nat| double(j, k);
        assert forall|j: nat| j < n implies #[trigger] f(j) == g(j) by {
            lemma_pow_multiplies(r, k, j);
            lemma_pow_multiplies(r, j, k);
            lemma_mul_is_commutative(j as int, k as int);
            lemma_mul_is_commutative(x[k as int] as int, y[j as int] as int);
        }
        lemma_total_equal(f, g, n);
        lemma_mul_is_commutative(x[k as int] as int, b[k as int] as int);
    }
    lemma_total_same(right, columns, n, mi);
    lemma_total_swap(double, n, n);
}

proof fn lemma_scaled_products(u: Seq<nat>, w: Seq<nat>, y: Seq<nat>, scale: int, n: nat, m: int)
    requires
        m > 0,
        forall|j: int| 0 <= j < n ==> #[trigger] u[j] == (scale * w[j]) % m,
    ensures
        same(total(products(u, y), n), scale * total(products(w, y), n), m),
        same(total(products(y, u), n), scale * total(products(y, w), n), m),
{
    let (f, g) = (products(u, y), products(w, y));
    let scaled = |j: nat| scale * g(j);
    assert forall|j: nat| j < n implies same(#[trigger] f(j), scaled(j), m) by {
        let c = scale * w[j as int];
        lemma_mod_twice(c, m);
        lemma_same_mul(u[j as int] as int, c, y[j as int] as int, y[j as int] as int, m);
        assert(c * y[j as int] == scale * (w[j as int] * y[j as int])) by (nonlinear_arith)
            requires
                c == scale * w[j as int],
        ;
    }
    lemma_total_same(f, scaled, n, m);
    lemma_total_scale(g, scale, n);
    assert forall|j: nat| j < n implies #[trigger] products(y, u)(j) == f(j) by {
        lemma_mul_is_commutative(u[j as int] as int, y[j as int] as int);
    }
    assert forall|j: nat| j < n implies #[trigger] products(y, w)(j) == g(j) by {
        lemma_mul_is_commutative(w[j as int] as int, y[j as int] as int);
    }
    lemma_total_equal(products(y, u), f, n);
    lemma_total_equal(products(y, w), g, n);
}

/// In a sum of products the inverse transform can be taken of either factor.
proof fn lemma_inverse_dft_symmetric(x: Seq<nat>, y: Seq<nat>, root: nat, m: nat)
    requires
        m > 0,
        x.len() == y.len(),
        x.len() > 0,
    ensures
        same(
            total(products(inverse_dft(x, root, m), y), x.len()),
            total(products(x, inverse_dft(y, root, m)), x.len()),
            m as int,
        ),
{
    let n = x.len();
    let mi = m as int;
    let half = ((m + 1) / 2) as int;
    lemma_pow_nonnegative(half as nat, ceil_log2(n));
    let scale = pow(half, ceil_log2(n));
    let inverse = pow(root as int, (n - 1) as nat) as nat;
    let (a, b) = (dft(x, inverse, m), dft(y, inverse, m));
    lemma_dft_symmetric(x, y, inverse, m);
    lemma_scaled_products(inverse_dft(x, root, m), a, y, scale, n, mi);
    lemma_scaled_products(inverse_dft(y, root, m), b, x, scale, n, mi);
    lemma_same_mul(
        scale,
        scale,
        total(products(a, y), n),
        total(products(x, b), n),
        mi,
    );
}

/// The inverse transform of the powers of `x`, times `factor`, interpolates: with the values of a
/// polynomial on the domain it gives the value of the polynomial at `x`, times `factor`.
pub proof fn lemma_interpolates(
    powers: Seq<nat>,
    x: nat,
    factor: nat,
    polynomial: Seq<nat>,
    root: nat,
    m: nat,
)
    requires
        m > 1,
        m % 2 == 1,
        power_of_two(polynomial.len()),
        polynomial.len() > 1 ==> same(pow(root as int, polynomial.len() / 2), -1, m as int),
        polynomial.len() == 1 ==> same(root as int, 1, m as int),
        forall|k: int| 0 <= k < polynomial.len() ==> #[trigger] polynomial[k] < m,
        powers.len() == polynomial.len(),
        forall|k: int|
            0 <= k < powers.len() ==> same(
                #[trigger] powers[k] as int,
                pow(x as int, k as nat) * factor,
                m as int,
            ),
    ensures
        same(
            total(
                products(inverse_dft(powers, root, m), dft(polynomial, root, m)),
                polynomial.len(),
            ),
            (evaluate(polynomial, x, polynomial.len()) * factor) as int,
            m as int,
        ),
{
    let n = polynomial.len();
    let mi = m as int;
    law_dft_inverts(polynomial, root, m);
    lemma_inverse_dft_symmetric(powers, dft(polynomial, root, m), root, m);
    let f = products(powers, polynomial);
    let terms = |k: nat| polynomial[k as int] * pow(x as int, k);
    let scaled = |k: nat| factor as int * terms(k);
    assert forall|k: nat| k < n implies same(#[trigger] f(k), scaled(k), mi) by {
        let p = pow(x as int, k);
        let c = polynomial[k as int] as int;
        lemma_same_mul(powers[k as int] as int, p * factor, c, c, mi);
        assert((p * factor) * c == factor * (c * p)) by (nonlinear_arith);
    }
    lemma_total_same(f, scaled, n, mi);
    lemma_total_scale(terms, factor as int, n);
    lemma_evaluate(polynomial, x, n);
    lemma_mul_is_commutative(evaluate(polynomial, x, n) as int, factor as int);
}

/// The points of a column with a row for every instance variable behind the constraints.
proof fn lemma_bound_log<A: GroupModel>(
    matrix: Seq<Vec<(A::ScalarField, usize)>>,
    bases: Seq<A>,
    column: usize,
    instance_variables: nat,
)
    requires
        full_order::<A>(),
        all_in_group(bases),
        matrix.len() + instance_variables <= bases.len() <= usize::MAX,
    ensures
        ({
            let own = column_combination(matrix, bases, column);
            let bound = if column < instance_variables {
                sum(own, bases[matrix.len() + column])
            } else {
                own
            };
            in_group(bound) && same(
                log(bound) as int,
                weighted(
                    bases,
                    |j: nat|
                        bound_coefficient(
                            matrix,
                            matrix.len(),
                            instance_variables,
                            j,
                            column as nat,
                        ),
                    bases.len(),
                ),
                A::ScalarField::order() as int,
            )
        }),
{
    let m = A::ScalarField::order() as int;
    let n = bases.len();
    let own = column_combination(matrix, bases, column);
    lemma_order::<A>();
    lemma_column_log(matrix, bases, column);
    let weight = |j: nat| coefficient(matrix, j, column as nat);
    let bound = |j: nat|
        bound_coefficient(matrix, matrix.len(), instance_variables, j, column as nat);
    let f = |j: nat| log(bases[j as int]) * weight(j);
    let g = |j: nat| log(bases[j as int]) * bound(j);
    if column < instance_variables {
        let at = (matrix.len() + column) as nat;
        let extra = |j: nat|
            if j == at {
                log(bases[j as int]) as int
            } else {
                0
            };
        lemma_total_add(f, extra, n);
        assert forall|j: nat| j < n implies #[trigger] g(j) == f(j) + extra(j) by {
            let l = log(bases[j as int]) as int;
            assert(l * (weight(j) + 1) == l * weight(j) + l) by (nonlinear_arith);
        }
        lemma_total_equal(g, |j: nat| f(j) + extra(j), n);
        lemma_total_single(extra, at, n, m);
        lemma_sum_in_group(own, bases[at as int]);
        lemma_same_add(
            log(own) as int,
            total(f, n),
            log(bases[at as int]) as int,
            total(extra, n),
            m,
        );
        lemma_mod_twice((log(own) + log(bases[at as int])) as int, m);
    } else {
        assert forall|j: nat| j < n implies #[trigger] g(j) == f(j) by {
            assert(bound(j) == weight(j));
        }
        lemma_total_equal(g, f, n);
    }
}

/// What stands behind a variable in a key that `specialized` gives.
proof fn lemma_specialized_logs<E: Pairing>(
    accum: PreparedModel<E>,
    matrices: Seq<SparseMatrix<E::ScalarField>>,
    constraints: nat,
    instance_variables: nat,
    variables: nat,
    i: nat,
)
    requires
        full_orders::<E>(),
        accum.in_groups(),
        accum.tau_lagrange_g2.len() == accum.tau_lagrange_g1.len(),
        accum.alpha_lagrange_g1.len() == accum.tau_lagrange_g1.len(),
        accum.beta_lagrange_g1.len() == accum.tau_lagrange_g1.len(),
        matrices.len() == 3,
        forall|k: int| 0 <= k < 3 ==> (#[trigger] matrices[k])@.len() == constraints,
        constraints + instance_variables <= accum.tau_lagrange_g1.len() <= usize::MAX,
        instance_variables <= variables <= usize::MAX,
        i < variables,
    ensures
        ({
            let key = specialized(accum, matrices, constraints, instance_variables, variables);
            let n = accum.tau_lagrange_g1.len();
            let m = E::ScalarField::order() as int;
            let a = |j: nat|
                bound_coefficient(matrices[0]@, constraints, instance_variables, j, i);
            let b = |j: nat| coefficient(matrices[1]@, j, i);
            let c = |j: nat| coefficient(matrices[2]@, j, i);
            let term = if i < instance_variables {
                key.vk.gamma_abc_g1[i as int]
            } else {
                key.l_query[i - instance_variables]
            };
            &&& key.a_query.len() == variables
            &&& key.b_g1_query.len() == variables
            &&& key.b_g2_query.len() == variables
            &&& key.vk.gamma_abc_g1.len() == instance_variables
            &&& key.l_query.len() == variables - instance_variables
            &&& in_group(key.a_query[i as int])
            &&& in_group(key.b_g1_query[i as int])
            &&& in_group(key.b_g2_query[i as int])
            &&& in_group(term)
            &&& same(log(key.a_query[i as int]) as int, weighted(accum.tau_lagrange_g1, a, n), m)
            &&& same(
                log(key.b_g1_query[i as int]) as int,
                weighted(accum.tau_lagrange_g1, b, n),
                m,
            )
            &&& same(
                log(key.b_g2_query[i as int]) as int,
                weighted(accum.tau_lagrange_g2, b, n),
                m,
            )
            &&& same(
                log(term) as int,
                weighted(accum.beta_lagrange_g1, a, n) + weighted(accum.alpha_lagrange_g1, b, n)
                    + weighted(accum.tau_lagrange_g1, c, n),
                m,
            )
        }),
{
    let m = E::ScalarField::order() as int;
    let n = accum.tau_lagrange_g1.len();
    let column = i as usize;
    let (ma, mb, mc) = (matrices[0]@, matrices[1]@, matrices[2]@);
    lemma_order::<E::G1Affine>();
    lemma_bound_log(ma, accum.tau_lagrange_g1, column, instance_variables);
    lemma_bound_log(ma, accum.beta_lagrange_g1, column, instance_variables);
    lemma_column_log(ma, accum.beta_lagrange_g1, column);
    lemma_column_log(mb, accum.tau_lagrange_g1, column);
    lemma_column_log(mb, accum.tau_lagrange_g2, column);
    lemma_column_log(mb, accum.alpha_lagrange_g1, column);
    lemma_column_log(mc, accum.tau_lagrange_g1, column);
    let x = column_combination(ma, accum.beta_lagrange_g1, column);
    let y = column_combination(mb, accum.alpha_lagrange_g1, column);
    let z = column_combination(mc, accum.tau_lagrange_g1, column);
    lemma_sum_in_group(x, y);
    lemma_sum_in_group(sum(x, y), z);
    // The terms add up in whatever order they are added.
    let (p, q, r) = (log(x) as int, log(y) as int, log(z) as int);
    lemma_add_mod_noop(p, q, m);
    lemma_mod_twice(p + q, m);
    lemma_same_add(log(sum(x, y)) as int, p + q, r, r, m);
    lemma_mod_twice((log(sum(x, y)) + log(z)) as int, m);
    let all = sum(sum(x, y), z);
    assert(same(log(all) as int, p + q + r, m));
    let key = specialized(accum, matrices, constraints, instance_variables, variables);
    let ext = cross_terms(accum, matrices, constraints, instance_variables, variables);
    let wb = weighted(
        accum.alpha_lagrange_g1,
        |j: nat| coefficient(mb, j, column as nat),
        n,
    );
    let wc = weighted(accum.tau_lagrange_g1, |j: nat| coefficient(mc, j, column as nat), n);
    let wa = weighted(
        accum.beta_lagrange_g1,
        |j: nat| bound_coefficient(ma, constraints, instance_variables, j, column as nat),
        n,
    );
    lemma_same_add(q, wb, r, wc, m);
    if i < instance_variables {
        let dummy = accum.beta_lagrange_g1[(constraints + i) as int];
        let d = log(dummy) as int;
        lemma_sum_in_group(all, dummy);
        lemma_sum_in_group(x, dummy);
        lemma_same_add(log(all) as int, p + q + r, d, d, m);
        lemma_mod_twice((log(all) + log(dummy)) as int, m);
        lemma_mod_twice((log(x) + log(dummy)) as int, m);
        assert(same(p + d, wa, m));
        lemma_same_add(p + d, wa, q + r, wb + wc, m);
        assert(ext[i as int] == sum(all, dummy));
        assert(key.vk.gamma_abc_g1[i as int] == ext[i as int]);
    } else {
        assert(same(p, wa, m));
        lemma_same_add(p, wa, q + r, wb + wc, m);
        assert(ext[i as int] == all);
        assert(key.l_query[i - instance_variables] == ext[i as int]);
    }
}

proof fn lemma_powers_of_two_near(a: nat, b: nat)
    requires
        power_of_two(a),
        power_of_two(b),
        a < 2 * b,
        b < 2 * a,
    ensures
        a == b,
    decreases a,
{
    if a > 1 && b > 1 {
        lemma_powers_of_two_near(a / 2, b / 2);
    }
}

proof fn lemma_log_of_domain(n: nat)
    ensures
        ceil_log2(power_at_least(n)) == ceil_log2(n),
    decreases n,
{
    if n > 1 {
        lemma_log_of_domain((n + 1) / 2);
        lemma_power_at_least((n + 1) / 2);
        let p = power_at_least((n + 1) / 2);
        assert((2 * p + 1) / 2 == p);
    }
}

/// The domain for `total` elements is the power of two that is not below it, and less than twice
/// it.
pub proof fn lemma_domain_of(elements: nat, exponent: nat, adicity: nat)
    requires
        exponent <= adicity,
        elements <= pow2(exponent) <= usize::MAX,
        pow2(exponent) == 1 || pow2(exponent) < 2 * elements,
    ensures
        domain_size(elements, adicity) == Some(pow2(exponent)),
        domain_size(pow2(exponent), adicity) == Some(pow2(exponent)),
        power_of_two(pow2(exponent)),
        ceil_log2(pow2(exponent)) == ceil_log2(elements),
        ceil_log2(pow2(exponent)) == exponent,
{
    let n = pow2(exponent);
    lemma_pow2_is_power(exponent);
    lemma_power_at_least(elements);
    if elements > 1 {
        lemma_powers_of_two_near(power_at_least(elements), n);
    }
    lemma_power_of_two_fixed(n);
    lemma_log_of_domain(elements);
    if exponent < adicity {
        lemma_pow2_strictly_increases(exponent, adicity);
    }
    lemma_log_of_power(n);
    let c = ceil_log2(n);
    if c < exponent {
        lemma_pow2_strictly_increases(c, exponent);
    } else if exponent < c {
        lemma_pow2_strictly_increases(exponent, c);
    }
}

/// Whether a circuit is one of R1CS constraints alone, with three matrices of a row for every
/// constraint, and no entry past the variables.
pub open spec fn is_r1cs<F>(circuit: Circuit<F>, constraints: nat) -> bool {
    let variables = circuit.instance_variables + circuit.witness_variables;
    &&& variables <= usize::MAX
    &&& constraints + circuit.instance_variables <= usize::MAX
    &&& circuit.predicates@.len() == 1
    &&& circuit.predicates@[0].0@ == "R1CS"@
    &&& circuit.predicates@[0].1 == constraints
    &&& circuit.matrices matches Ok(Some(matrices)) && matrices@.len() == 3 && (forall|m: int|
        0 <= m < 3 ==> (#[trigger] matrices@[m])@.len() == constraints) && (forall|
        m: int,
        r: int,
        k: int,
    |
        0 <= m < 3 && 0 <= r < constraints && 0 <= k < matrices@[m]@[r]@.len() ==> (
        #[trigger] matrices@[m]@[r]@[k]).1 < variables)
}

/// Whether `2^exponent` is the size of the domain for so many elements.
pub open spec fn fits_domain<F: ScalarModel>(elements: nat, exponent: nat) -> bool {
    &&& exponent <= F::two_adicity()
    &&& elements <= pow2(exponent) <= usize::MAX
    &&& pow2(exponent) == 1 || pow2(exponent) < 2 * elements
}

proof fn lemma_r1cs<F>(circuit: Circuit<F>, constraints: nat)
    requires
        is_r1cs(circuit, constraints),
    ensures
        circuit.well_formed(),
        circuit.constraint_count() == Ok::<usize, ErrorModel>(constraints as usize),
        circuit.matrices->Ok_0->0@.len() == 3,
        forall|k: int|
            0 <= k < 3 ==> (#[trigger] circuit.matrices->Ok_0->0@[k])@.len() == constraints,
        constraints + circuit.instance_variables <= usize::MAX,
        circuit.variables() <= usize::MAX,
{
    reveal_with_fuel(predicate_count, 2);
    reveal_with_fuel(other_predicate, 2);
    let matrices = circuit.matrices->Ok_0->0@;
    assert forall|k: int| 0 <= k < 3 implies matrix_fits(
        #[trigger] matrices[k]@,
        constraints,
        circuit.variables(),
    ) by {
        assert forall|r: int, j: int|
            0 <= r < matrices[k]@.len() && 0 <= j < matrices[k]@[r]@.len() implies (
        #[trigger] matrices[k]@[r]@[j]).1 < circuit.variables() by {
        }
    }
}

/// A circuit of R1CS constraints alone can be specialized just where its numbers can be counted to,
/// every matrix has a row for every constraint, and no entry lies past the variables.
pub proof fn law_fitting_circuits_are_well_formed<F>(circuit: Circuit<F>, constraints: nat)
    requires
        circuit.predicates@.len() == 1,
        circuit.predicates@[0].0@ == "R1CS"@,
        circuit.predicates@[0].1 == constraints,
        circuit.matrices matches Ok(Some(matrices)) && matrices@.len() == 3,
    ensures
        circuit.well_formed() <==> is_r1cs(circuit, constraints),
{
    reveal_with_fuel(predicate_count, 2);
    reveal_with_fuel(other_predicate, 2);
    let matrices = circuit.matrices->Ok_0->0@;
    if is_r1cs(circuit, constraints) {
        lemma_r1cs(circuit, constraints);
    }
    if circuit.well_formed() {
        assert forall|m: int| 0 <= m < 3 implies (#[trigger] matrices[m])@.len()
            == constraints by {
            assert(matrix_fits(matrices[m]@, constraints, circuit.variables()));
        }
        assert forall|m: int, r: int, k: int|
            0 <= m < 3 && 0 <= r < constraints && 0 <= k < matrices[m]@[r]@.len() implies (
        #[trigger] matrices[m]@[r]@[k]).1 < circuit.instance_variables
            + circuit.witness_variables by {
            assert(matrix_fits(matrices[m]@, constraints, circuit.variables()));
        }
    }
}

/// Whether all points of powers in Lagrange form lie in their groups.
pub open spec fn prepared_in_groups<E: Pairing>(accum: PreparedModel<E>) -> bool {
    &&& in_group(accum.alpha) && in_group(accum.beta) && in_group(accum.beta_g2)
    &&& all_in_group(accum.tau_lagrange_g1) && all_in_group(accum.tau_lagrange_g2)
    &&& all_in_group(accum.alpha_lagrange_g1) && all_in_group(accum.beta_lagrange_g1)
    &&& all_in_group(accum.h_query)
}

/// Whether these are the powers of three secrets: `tau^i` in both groups, and `alpha tau^i` and
/// `beta tau^i` in the first.
pub open spec fn are_powers<E: Pairing>(
    accum: AccumulatorModel<E>,
    tau: nat,
    alpha: nat,
    beta: nat,
) -> bool {
    let m = E::ScalarField::order() as int;
    &&& all_in_group(accum.tau_powers_g1) && all_in_group(accum.tau_powers_g2)
    &&& all_in_group(accum.alpha_tau_powers_g1) && all_in_group(accum.beta_tau_powers_g1)
    &&& in_group(accum.beta_g2)
    &&& accum.tau_powers_g2.len() <= accum.tau_powers_g1.len()
    &&& accum.alpha_tau_powers_g1.len() == accum.tau_powers_g2.len()
    &&& accum.beta_tau_powers_g1.len() == accum.tau_powers_g2.len()
    &&& forall|i: int|
        0 <= i < accum.tau_powers_g1.len() ==> log(#[trigger] accum.tau_powers_g1[i]) == pow(
            tau as int,
            i as nat,
        ) % m
    &&& forall|i: int|
        0 <= i < accum.tau_powers_g2.len() ==> log(#[trigger] accum.tau_powers_g2[i]) == pow(
            tau as int,
            i as nat,
        ) % m
    &&& forall|i: int|
        0 <= i < accum.alpha_tau_powers_g1.len() ==> log(#[trigger] accum.alpha_tau_powers_g1[i])
            == (pow(tau as int, i as nat) * alpha) % m
    &&& forall|i: int|
        0 <= i < accum.beta_tau_powers_g1.len() ==> log(#[trigger] accum.beta_tau_powers_g1[i])
            == (pow(tau as int, i as nat) * beta) % m
    &&& log(accum.beta_g2) == beta % (m as nat)
}

/// Powers of secrets are what is said of them.
pub proof fn law_powers_are_powers<E: Pairing>(
    accum: AccumulatorModel<E>,
    tau: nat,
    alpha: nat,
    beta: nat,
)
    ensures
        accum.powers_of(tau, alpha, beta) <==> are_powers(accum, tau, alpha, beta),
{
    let order = E::ScalarField::order();
    lemma_order::<E::G1Affine>();
    assert forall|i: nat| #[trigger] power_value(tau, i, order) == pow(tau as int, i) % (
    order as int) by {
        lemma_pow_nonnegative(tau, i);
        lemma_mod_bound(pow(tau as int, i), order as int);
    }
    assert forall|i: nat, secret: nat|
        #[trigger] mul_mod(power_value(tau, i, order), secret, order) == (pow(tau as int, i)
            * secret) % (order as int) by {
        lemma_secret_power(tau, i, secret, order);
        lemma_small_mod(mul_mod(power_value(tau, i, order), secret, order), order);
    }
    if are_powers(accum, tau, alpha, beta) {
        assert forall|i: int| 0 <= i < accum.alpha_tau_powers_g1.len() implies log(
            #[trigger] accum.alpha_tau_powers_g1[i],
        ) == mul_mod(power_value(tau, i as nat, order), alpha, order) by {
        }
        assert forall|i: int| 0 <= i < accum.beta_tau_powers_g1.len() implies log(
            #[trigger] accum.beta_tau_powers_g1[i],
        ) == mul_mod(power_value(tau, i as nat, order), beta, order) by {
        }
    }
}

/// The transcript for an R1CS circuit, from any powers in Lagrange form of the domain that the
/// circuit fills, is one without contributions, whose key holds for every variable the sums over
/// all rows of the powers times the variable's coefficients: in the `a` query with the first
/// matrix, in the `b` queries with the second, and behind them `beta` times the first matrix and
/// `alpha` times the second and the third. The first matrix has a row of its own for every
/// instance variable.
pub proof fn law_key_combines_all_rows<E: Pairing>(
    accum: PreparedModel<E>,
    circuit: Circuit<E::ScalarField>,
    constraints: nat,
    exponent: nat,
    i: nat,
)
    requires
        full_orders::<E>(),
        prepared_in_groups(accum),
        is_r1cs(circuit, constraints),
        fits_domain::<E::ScalarField>(constraints + circuit.instance_variables as nat, exponent),
        accum.tau_lagrange_g1.len() == pow2(exponent),
        accum.tau_lagrange_g2.len() == pow2(exponent),
        accum.alpha_lagrange_g1.len() == pow2(exponent),
        accum.beta_lagrange_g1.len() == pow2(exponent),
        accum.h_query.len() == pow2(exponent) - 1,
        i < circuit.instance_variables + circuit.witness_variables,
    ensures
        TranscriptModel::from_prepared(accum, circuit) is Ok,
        ({
            let transcript = TranscriptModel::from_prepared(accum, circuit)->Ok_0;
            let key = transcript.key;
            let initial = transcript.initial_key;
            let matrices = circuit.matrices->Ok_0->0@;
            let instance = circuit.instance_variables as nat;
            let n = pow2(exponent);
            let m = E::ScalarField::order() as int;
            let a = |j: nat| bound_coefficient(matrices[0]@, constraints, instance, j, i);
            let b = |j: nat| coefficient(matrices[1]@, j, i);
            let c = |j: nat| coefficient(matrices[2]@, j, i);
            let term = if i < instance {
                key.vk.gamma_abc_g1[i as int]
            } else {
                key.l_query[i - instance]
            };
            &&& transcript.contributions.len() == 0
            &&& initial.delta_g1 == E::G1Affine::exp(1)
            &&& initial.delta_g2 == E::G2Affine::exp(1)
            &&& initial.h_query == accum.h_query
            &&& initial.l_query == key.l_query
            &&& key.delta_g1 == E::G1Affine::exp(1)
            &&& key.vk.delta_g2 == E::G2Affine::exp(1)
            &&& key.vk.gamma_g2 == E::G2Affine::exp(1)
            &&& key.vk.alpha_g1 == accum.alpha
            &&& key.vk.beta_g2 == accum.beta_g2
            &&& key.beta_g1 == accum.beta
            &&& key.h_query == accum.h_query
            &&& key.a_query.len() == instance + circuit.witness_variables
            &&& key.b_g1_query.len() == instance + circuit.witness_variables
            &&& key.b_g2_query.len() == instance + circuit.witness_variables
            &&& key.vk.gamma_abc_g1.len() == instance
            &&& key.l_query.len() == circuit.witness_variables
            &&& same(log(key.a_query[i as int]) as int, weighted(accum.tau_lagrange_g1, a, n), m)
            &&& same(
                log(key.b_g1_query[i as int]) as int,
                weighted(accum.tau_lagrange_g1, b, n),
                m,
            )
            &&& same(
                log(key.b_g2_query[i as int]) as int,
                weighted(accum.tau_lagrange_g2, b, n),
                m,
            )
            &&& same(
                log(term) as int,
                weighted(accum.beta_lagrange_g1, a, n) + weighted(accum.alpha_lagrange_g1, b, n)
                    + weighted(accum.tau_lagrange_g1, c, n),
                m,
            )
            &&& in_group(key.a_query[i as int])
            &&& in_group(key.b_g1_query[i as int])
            &&& in_group(key.b_g2_query[i as int])
            &&& in_group(term)
        }),
{
    let instance = circuit.instance_variables as nat;
    let matrices = circuit.matrices->Ok_0->0@;
    lemma_r1cs(circuit, constraints);
    lemma_domain_of(constraints + instance, exponent, E::ScalarField::two_adicity());
    lemma_specialized_logs(
        accum,
        matrices,
        constraints,
        instance,
        circuit.variables(),
        i,
    );
}

/// The value of a polynomial with these coefficients at a secret.
pub open spec fn value_at(polynomial: Seq<nat>, secret: nat) -> int {
    evaluate(polynomial, secret, polynomial.len()) as int
}

/// Whether a polynomial, of as many coefficients as the domain of `2^exponent` elements, takes the
/// values at the successive elements of the domain.
pub open spec fn interpolates<F: ScalarModel>(
    polynomial: Seq<nat>,
    values: spec_fn(nat) -> int,
    exponent: nat,
) -> bool {
    let n = pow2(exponent);
    let root = domain_root::<F>(n);
    &&& polynomial.len() == n
    &&& forall|k: int| 0 <= k < n ==> #[trigger] polynomial[k] < F::order()
    &&& forall|j: nat|
        j < n ==> same(
            evaluate(polynomial, pow(root as int, j) as nat, n) as int,
            #[trigger] values(j),
            F::order() as int,
        )
}

/// Sums over the Lagrange form of powers are values of the interpolating polynomials.
proof fn lemma_lagrange_weighted<A: GroupModel>(
    powers: Seq<A>,
    tau: nat,
    factor: nat,
    polynomial: Seq<nat>,
    values: spec_fn(nat) -> int,
    exponent: nat,
)
    requires
        full_order::<A>(),
        exponent <= A::ScalarField::two_adicity(),
        pow2(exponent) <= usize::MAX,
        powers.len() >= pow2(exponent),
        all_in_group(powers),
        forall|k: int|
            0 <= k < pow2(exponent) ==> same(
                log(#[trigger] powers[k]) as int,
                pow(tau as int, k as nat) * factor,
                A::ScalarField::order() as int,
            ),
        interpolates::<A::ScalarField>(polynomial, values, exponent),
    ensures
        ({
            let lagrange = ifft(powers.take(pow2(exponent) as int));
            &&& lagrange.len() == pow2(exponent)
            &&& all_in_group(lagrange)
            &&& same(
                weighted(lagrange, values, pow2(exponent)),
                value_at(polynomial, tau) * factor,
                A::ScalarField::order() as int,
            )
        }),
{
    let n = pow2(exponent);
    let order = A::ScalarField::order();
    let m = order as int;
    lemma_order::<A>();
    lemma_pow2_pos(exponent);
    lemma_domain_of(n, exponent, A::ScalarField::two_adicity());
    lemma_domain_root::<A::ScalarField>(n);
    let root = domain_root::<A::ScalarField>(n);
    let first = powers.take(n as int);
    lemma_logs(first);
    let own = inverse_dft(logs(first), root, order);
    lemma_exps::<A>(own);
    assert(ifft(first) == exps::<A>(own));
    assert forall|k: int| 0 <= k < n implies same(
        #[trigger] logs(first)[k] as int,
        pow(tau as int, k as nat) * factor,
        m,
    ) by {
        assert(logs(first)[k] == log(powers[k]));
    }
    lemma_interpolates(logs(first), tau, factor, polynomial, root, order);
    let lagrange = ifft(first);
    let f = |j: nat| log(lagrange[j as int]) * values(j);
    let g = products(own, dft(polynomial, root, order));
    assert forall|j: nat| j < n implies same(#[trigger] f(j), g(j), m) by {
        assert(logs(lagrange)[j as int] == own[j as int]);
        let e = evaluate(polynomial, pow(root as int, j) as nat, n) as int;
        assert(same(e, values(j), m));
        lemma_mod_twice(e, m);
        let v = dft(polynomial, root, order)[j as int] as int;
        let l = own[j as int] as int;
        lemma_same_mul(l, l, values(j), v, m);
    }
    lemma_total_same(f, g, n, m);
}

/// The key that powers of `tau`, `alpha` and `beta` give for an R1CS circuit is that of its
/// quadratic arithmetic program: where `a`, `b` and `c` are the polynomials that take the
/// coefficients of a variable in the three matrices for their values on the domain, the variable
/// has `a(tau)` in the `a` query, `b(tau)` in the `b` queries of both groups, and
/// `beta a(tau) + alpha b(tau) + c(tau)` in the verifying key or the `l` query. The `h` query has
/// the powers of `tau` times what the domain's vanishing polynomial is at `tau`.
pub proof fn law_key_is_the_quadratic_program<E: Pairing>(
    accum: AccumulatorModel<E>,
    secrets: (nat, nat, nat),
    circuit: Circuit<E::ScalarField>,
    constraints: nat,
    exponent: nat,
    i: nat,
    a: Seq<nat>,
    b: Seq<nat>,
    c: Seq<nat>,
)
    requires
        full_orders::<E>(),
        are_powers(accum, secrets.0, secrets.1, secrets.2),
        is_r1cs(circuit, constraints),
        fits_domain::<E::ScalarField>(constraints + circuit.instance_variables as nat, exponent),
        accum.tau_powers_g2.len() >= pow2(exponent),
        accum.tau_powers_g1.len() >= 2 * pow2(exponent) - 1,
        i < circuit.instance_variables + circuit.witness_variables,
        interpolates::<E::ScalarField>(
            a,
            |j: nat|
                bound_coefficient(
                    circuit.matrices->Ok_0->0@[0]@,
                    constraints,
                    circuit.instance_variables as nat,
                    j,
                    i,
                ),
            exponent,
        ),
        interpolates::<E::ScalarField>(
            b,
            |j: nat| coefficient(circuit.matrices->Ok_0->0@[1]@, j, i),
            exponent,
        ),
        interpolates::<E::ScalarField>(
            c,
            |j: nat| coefficient(circuit.matrices->Ok_0->0@[2]@, j, i),
            exponent,
        ),
    ensures
        TranscriptModel::from_powers(accum, circuit) is Ok,
        ({
            let (tau, alpha, beta) = secrets;
            let key = TranscriptModel::from_powers(accum, circuit)->Ok_0.key;
            let instance = circuit.instance_variables as nat;
            let n = pow2(exponent);
            let m = E::ScalarField::order() as int;
            let term = if i < instance {
                key.vk.gamma_abc_g1[i as int]
            } else {
                key.l_query[i - instance]
            };
            let at_a = value_at(a, tau);
            let at_b = value_at(b, tau);
            let at_c = value_at(c, tau);
            &&& log(key.a_query[i as int]) == at_a % m
            &&& log(key.b_g1_query[i as int]) == at_b % m
            &&& log(key.b_g2_query[i as int]) == at_b % m
            &&& log(term) == (at_a * beta + at_b * alpha + at_c) % m
            &&& log(key.vk.alpha_g1) == alpha % (m as nat)
            &&& log(key.beta_g1) == beta % (m as nat)
            &&& log(key.vk.beta_g2) == beta % (m as nat)
            &&& key.vk.gamma_g2 == E::G2Affine::exp(1)
            &&& key.vk.delta_g2 == E::G2Affine::exp(1)
            &&& key.delta_g1 == E::G1Affine::exp(1)
            &&& key.h_query.len() == n - 1
            &&& forall|k: nat|
                k + 1 < n ==> log(#[trigger] key.h_query[k as int]) == (pow(tau as int, k) * (pow(
                    tau as int,
                    n,
                ) - 1)) % m
            &&& key.a_query.len() == instance + circuit.witness_variables
            &&& key.b_g1_query.len() == instance + circuit.witness_variables
            &&& key.b_g2_query.len() == instance + circuit.witness_variables
            &&& key.vk.gamma_abc_g1.len() == instance
            &&& key.l_query.len() == circuit.witness_variables
        }),
{
    let (tau, alpha, beta) = secrets;
    let order = E::ScalarField::order();
    let m = order as int;
    let n = pow2(exponent);
    let instance = circuit.instance_variables as nat;
    let elements = constraints + instance;
    law_powers_are_powers(accum, tau, alpha, beta);
    lemma_order::<E::G1Affine>();
    lemma_order::<E::G2Affine>();
    lemma_pow2_pos(exponent);
    lemma_r1cs(circuit, constraints);
    lemma_domain_of(elements, exponent, E::ScalarField::two_adicity());
    let prepared = accum.lagrange(n);
    law_prepare_stays_in_groups(accum, n);
    assert(accum.prepared_with_size(n) == Ok::<PreparedModel<E>, ErrorModel>(prepared));
    let matrices = circuit.matrices->Ok_0->0@;
    let va = |j: nat| bound_coefficient(matrices[0]@, constraints, instance, j, i);
    let vb = |j: nat| coefficient(matrices[1]@, j, i);
    let vc = |j: nat| coefficient(matrices[2]@, j, i);
    assert forall|k: int| 0 <= k < n implies same(
        log(#[trigger] accum.tau_powers_g1[k]) as int,
        pow(tau as int, k as nat) * 1,
        m,
    ) && same(log(accum.tau_powers_g2[k]) as int, pow(tau as int, k as nat) * 1, m) by {
        assert(log(accum.tau_powers_g2[k]) == power_value(tau, k as nat, order));
        lemma_pow_nonnegative(tau, k as nat);
        lemma_mod_twice(pow(tau as int, k as nat), m);
    }
    assert forall|k: int| 0 <= k < n implies same(
        log(#[trigger] accum.tau_powers_g2[k]) as int,
        pow(tau as int, k as nat) * 1,
        m,
    ) by {
        assert(same(log(accum.tau_powers_g1[k]) as int, pow(tau as int, k as nat) * 1, m));
    }
    assert forall|k: int| 0 <= k < n implies same(
        log(#[trigger] accum.alpha_tau_powers_g1[k]) as int,
        pow(tau as int, k as nat) * alpha,
        m,
    ) by {
        lemma_secret_power(tau, k as nat, alpha, order);
    }
    assert forall|k: int| 0 <= k < n implies same(
        log(#[trigger] accum.beta_tau_powers_g1[k]) as int,
        pow(tau as int, k as nat) * beta,
        m,
    ) by {
        lemma_secret_power(tau, k as nat, beta, order);
    }
    lemma_lagrange_weighted(accum.tau_powers_g1, tau, 1, a, va, exponent);
    lemma_lagrange_weighted(accum.tau_powers_g1, tau, 1, b, vb, exponent);
    lemma_lagrange_weighted(accum.tau_powers_g1, tau, 1, c, vc, exponent);
    lemma_lagrange_weighted(accum.tau_powers_g2, tau, 1, b, vb, exponent);
    lemma_lagrange_weighted(accum.alpha_tau_powers_g1, tau, alpha, b, vb, exponent);
    lemma_lagrange_weighted(accum.beta_tau_powers_g1, tau, beta, a, va, exponent);
    lemma_specialized_logs(prepared, matrices, constraints, instance, circuit.variables(), i);
    let key = specialized(prepared, matrices, constraints, instance, circuit.variables());
    assert(TranscriptModel::from_powers(accum, circuit)->Ok_0.key == key);
    let term = if i < instance {
        key.vk.gamma_abc_g1[i as int]
    } else {
        key.l_query[i - instance]
    };
    let at_a = value_at(a, tau);
    let at_b = value_at(b, tau);
    let at_c = value_at(c, tau);
    let (wa, wb, wc) = (
        weighted(prepared.beta_lagrange_g1, va, n),
        weighted(prepared.alpha_lagrange_g1, vb, n),
        weighted(prepared.tau_lagrange_g1, vc, n),
    );
    lemma_same_add(wa, at_a * beta, wb, at_b * alpha, m);
    lemma_same_add(wa + wb, at_a * beta + at_b * alpha, wc, at_c * 1, m);
    lemma_residue(term);
    lemma_residue(key.a_query[i as int]);
    lemma_residue(key.b_g1_query[i as int]);
    lemma_residue(key.b_g2_query[i as int]);
    // The secrets themselves stand at the power 0.
    lemma_pow0(tau as int);
    lemma_small_mod(1, order);
    assert(power_value(tau, 0, order) == 1);
    assert(log(accum.alpha_tau_powers_g1[0]) == mul_mod(1, alpha, order));
    assert(log(accum.beta_tau_powers_g1[0]) == mul_mod(1, beta, order));
    assert(1 * alpha == alpha && 1 * beta == beta);
    assert forall|k: nat| k + 1 < n implies log(#[trigger] key.h_query[k as int]) == (pow(
        tau as int,
        k,
    ) * (pow(tau as int, n) - 1)) % m by {
        law_h_query_vanishes(accum, secrets, n, k);
        let (p, z) = (pow(tau as int, k), pow(tau as int, n) - 1);
        lemma_pow_nonnegative(tau, k);
        lemma_mod_bound(p, m);
        lemma_mod_twice(p, m);
        lemma_same_mul(p % m, p, z, z, m);
    }
}

proof fn lemma_residue<A: GroupModel>(point: A)
    requires
        in_group(point),
    ensures
        log(point) as int % A::ScalarField::order() as int == log(point),
{
    lemma_exp_log(point);
    lemma_small_mod(log(point), A::ScalarField::order());
}

proof fn lemma_secret_power(tau: nat, k: nat, secret: nat, order: nat)
    requires
        order > 0,
    ensures
        same(
            mul_mod(power_value(tau, k, order), secret, order) as int,
            pow(tau as int, k) * secret,
            order as int,
        ),
{
    let m = order as int;
    let p = pow(tau as int, k);
    lemma_pow_nonnegative(tau, k);
    lemma_mod_bound(p, m);
    lemma_mod_twice(p, m);
    lemma_same_mul(p % m, p, secret as int, secret as int, m);
    lemma_mod_twice((power_value(tau, k, order) * secret) as int, m);
}

/// Powers in Lagrange form give the transcript that the powers give, where the domain is the
/// circuit's.
pub proof fn law_both_forms_give_the_same<E: Pairing>(
    accum: AccumulatorModel<E>,
    circuit: Circuit<E::ScalarField>,
    constraints: nat,
    exponent: nat,
)
    requires
        is_r1cs(circuit, constraints),
        fits_domain::<E::ScalarField>(constraints + circuit.instance_variables as nat, exponent),
        all_in_group(accum.tau_powers_g1) && all_in_group(accum.tau_powers_g2),
        all_in_group(accum.alpha_tau_powers_g1) && all_in_group(accum.beta_tau_powers_g1),
        accum.tau_powers_g2.len() >= pow2(exponent),
        accum.tau_powers_g1.len() >= 2 * pow2(exponent) - 1,
        accum.tau_powers_g1.len() >= accum.tau_powers_g2.len(),
        accum.alpha_tau_powers_g1.len() == accum.tau_powers_g2.len(),
        accum.beta_tau_powers_g1.len() == accum.tau_powers_g2.len(),
    ensures
        accum.prepared_with_size(pow2(exponent)) is Ok,
        TranscriptModel::from_powers(accum, circuit) is Ok,
        TranscriptModel::from_powers(accum, circuit) == TranscriptModel::from_prepared(
            accum.prepared_with_size(pow2(exponent))->Ok_0,
            circuit,
        ),
{
    let n = pow2(exponent);
    lemma_pow2_pos(exponent);
    lemma_r1cs(circuit, constraints);
    lemma_domain_of(
        constraints + circuit.instance_variables as nat,
        exponent,
        E::ScalarField::two_adicity(),
    );
    lemma_ifft_in_group(accum.tau_powers_g1.take(n as int));
    lemma_ifft_in_group(accum.tau_powers_g2.take(n as int));
    lemma_ifft_in_group(accum.alpha_tau_powers_g1.take(n as int));
    lemma_ifft_in_group(accum.beta_tau_powers_g1.take(n as int));
}

/// `start` and, one after the other, the point times every one of the first `count` entries of a
/// row that lie in a column.
pub open spec fn row_sum<A: GroupModel>(
    start: A,
    point: A,
    entries: Seq<(A::ScalarField, usize)>,
    column: nat,
    count: nat,
) -> A
    decreases count,
{
    if count == 0 {
        start
    } else {
        let before = row_sum(start, point, entries, column, (count - 1) as nat);
        if entries[count - 1].1 == column {
            sum(before, multiple(point, entries[count - 1].0.value()))
        } else {
            before
        }
    }
}

/// The points of the first `rows` rows, each times the entries of its row in a column, added up one
/// after the other.
pub open spec fn column_sum<A: GroupModel>(
    matrix: Seq<Vec<(A::ScalarField, usize)>>,
    bases: Seq<A>,
    column: nat,
    rows: nat,
) -> A
    decreases rows,
{
    if rows == 0 {
        A::exp(0)
    } else {
        row_sum(
            column_sum(matrix, bases, column, (rows - 1) as nat),
            bases[rows - 1],
            matrix[rows - 1]@,
            column,
            matrix[rows - 1]@.len(),
        )
    }
}

proof fn lemma_combination_prefix<A: GroupModel>(
    bases: Seq<A>,
    a: Seq<(usize, A::ScalarField)>,
    b: Seq<(usize, A::ScalarField)>,
    count: nat,
)
    requires
        count <= a.len(),
    ensures
        combination(bases, a + b, count) == combination(bases, a, count),
    decreases count,
{
    if count > 0 {
        lemma_combination_prefix(bases, a, b, (count - 1) as nat);
        assert((a + b)[count - 1] == a[count - 1]);
    }
}

proof fn lemma_row_sum<A: GroupModel>(
    bases: Seq<A>,
    a: Seq<(usize, A::ScalarField)>,
    entries: Seq<(A::ScalarField, usize)>,
    row: usize,
    column: usize,
    count: nat,
)
    requires
        count <= entries.len(),
    ensures
        ({
            let own = row_entries(entries, row, column, count);
            combination(bases, a + own, (a + own).len()) == row_sum(
                combination(bases, a, a.len()),
                bases[row as int],
                entries,
                column as nat,
                count,
            )
        }),
    decreases count,
{
    if count == 0 {
        assert(a + row_entries(entries, row, column, 0) =~= a);
    } else {
        let last = (count - 1) as nat;
        lemma_row_sum(bases, a, entries, row, column, last);
        let before = row_entries(entries, row, column, last);
        if entries[last as int].1 == column {
            let one = seq![(row, entries[last as int].0)];
            let own = row_entries(entries, row, column, count);
            assert(a + own =~= (a + before) + one);
            lemma_combination_prefix(bases, a + before, one, (a + before).len());
            assert((a + own)[(a + own).len() - 1] == one[0]);
        }
    }
}

proof fn lemma_column_sum<A: GroupModel>(
    matrix: Seq<Vec<(A::ScalarField, usize)>>,
    bases: Seq<A>,
    column: usize,
    rows: nat,
)
    requires
        rows <= matrix.len() <= usize::MAX,
    ensures
        ({
            let own = column_entries(matrix, column, rows);
            combination(bases, own, own.len()) == column_sum(matrix, bases, column as nat, rows)
        }),
    decreases rows,
{
    if rows > 0 {
        let last = (rows - 1) as nat;
        lemma_column_sum(matrix, bases, column, last);
        let row = matrix[last as int]@;
        lemma_row_sum(
            bases,
            column_entries(matrix, column, last),
            row,
            last as usize,
            column,
            row.len(),
        );
    }
}

/// The key for an R1CS circuit, from any points in place of powers in Lagrange form, holds for every
/// variable the sums of the points times the variable's entries in all rows, taken one after the
/// other, and for the instance variables the point of their own row.
pub proof fn law_key_adds_all_rows<E: Pairing>(
    accum: PreparedModel<E>,
    circuit: Circuit<E::ScalarField>,
    constraints: nat,
    exponent: nat,
    i: nat,
)
    requires
        is_r1cs(circuit, constraints),
        fits_domain::<E::ScalarField>(constraints + circuit.instance_variables as nat, exponent),
        accum.tau_lagrange_g1.len() == pow2(exponent),
        accum.tau_lagrange_g2.len() == pow2(exponent),
        accum.alpha_lagrange_g1.len() == pow2(exponent),
        accum.beta_lagrange_g1.len() == pow2(exponent),
        accum.h_query.len() == pow2(exponent) - 1,
        i < circuit.instance_variables + circuit.witness_variables,
    ensures
        TranscriptModel::from_prepared(accum, circuit) is Ok,
        ({
            let key = TranscriptModel::from_prepared(accum, circuit)->Ok_0.key;
            let matrices = circuit.matrices->Ok_0->0@;
            let instance = circuit.instance_variables as nat;
            let at = i as int;
            let own_row = constraints + i;
            let a = column_sum(matrices[0]@, accum.tau_lagrange_g1, i, constraints);
            let ext = sum(
                sum(
                    column_sum(matrices[0]@, accum.beta_lagrange_g1, i, constraints),
                    column_sum(matrices[1]@, accum.alpha_lagrange_g1, i, constraints),
                ),
                column_sum(matrices[2]@, accum.tau_lagrange_g1, i, constraints),
            );
            &&& key.b_g1_query[at] == column_sum(
                matrices[1]@,
                accum.tau_lagrange_g1,
                i,
                constraints,
            )
            &&& key.b_g2_query[at] == column_sum(
                matrices[1]@,
                accum.tau_lagrange_g2,
                i,
                constraints,
            )
            &&& i < instance ==> key.a_query[at] == sum(
                a,
                accum.tau_lagrange_g1[own_row as int],
            ) && key.vk.gamma_abc_g1[at] == sum(ext, accum.beta_lagrange_g1[own_row as int])
            &&& i >= instance ==> key.a_query[at] == a && key.l_query[at - instance] == ext
        }),
{
    let instance = circuit.instance_variables as nat;
    let matrices = circuit.matrices->Ok_0->0@;
    let column = i as usize;
    lemma_r1cs(circuit, constraints);
    lemma_domain_of(constraints + instance, exponent, E::ScalarField::two_adicity());
    assert(matrices[0]@.len() == constraints && matrices[1]@.len() == constraints
        && matrices[2]@.len() == constraints);
    lemma_column_sum(matrices[0]@, accum.tau_lagrange_g1, column, constraints);
    lemma_column_sum(matrices[0]@, accum.beta_lagrange_g1, column, constraints);
    lemma_column_sum(matrices[1]@, accum.tau_lagrange_g1, column, constraints);
    lemma_column_sum(matrices[1]@, accum.tau_lagrange_g2, column, constraints);
    lemma_column_sum(matrices[1]@, accum.alpha_lagrange_g1, column, constraints);
    lemma_column_sum(matrices[2]@, accum.tau_lagrange_g1, column, constraints);
    let key = specialized(accum, matrices, constraints, instance, circuit.variables());
    let ext = cross_terms(accum, matrices, constraints, instance, circuit.variables());
    if i < instance {
        assert(key.vk.gamma_abc_g1[i as int] == ext[i as int]);
    } else {
        assert(key.l_query[i - instance] == ext[i as int]);
    }
}

} // verus!
