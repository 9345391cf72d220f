use vstd::arithmetic::div_mod::{
    lemma_add_mod_noop, lemma_fundamental_div_mod, lemma_mod_multiples_vanish, lemma_mod_twice,
    lemma_mul_mod_noop_general, lemma_small_mod,
};
use vstd::arithmetic::mul::{
    lemma_mul_is_associative, lemma_mul_is_commutative, lemma_mul_is_distributive_add,
};
use vstd::arithmetic::power::{
    lemma1_pow, lemma_pow0, lemma_pow1, lemma_pow_adds, lemma_pow_distributes, lemma_pow_mod_noop,
    lemma_pow_multiplies, pow,
};
use vstd::arithmetic::power2::{lemma2_to64, lemma_pow2, lemma_pow2_unfold, pow2};
use vstd::prelude::*;

use crate::accumulator::lemma_pow_nonnegative;
use crate::math::{ceil_log2, dft, evaluate, inverse_dft, power_of_two};

verus! {

/// Whether two numbers are the same modulo `m`.
pub open spec fn same(a: int, b: int, m: int) -> bool {
    a % m == b % m
}

/// The sum of the first `n` values of `f`.
pub open spec fn total(f: spec_fn(nat) -> int, n: nat) -> int
    decreases n,
{
    if n == 0 {
        0
    } else {
        total(f, (n - 1) as nat) + f((n - 1) as nat)
    }
}

/// The sum of the first `n` powers of `x`.
pub open spec fn powers_total(x: int) -> spec_fn(nat) -> int {
    |i: nat| pow(x, i)
}

pub proof fn lemma_same_add(a: int, b: int, c: int, d: int, m: int)
    requires
        m > 0,
        same(a, b, m),
        same(c, d, m),
    ensures
        same(a + c, b + d, m),
{
    lemma_add_mod_noop(a, c, m);
    lemma_add_mod_noop(b, d, m);
}

pub proof fn lemma_same_mul(a: int, b: int, c: int, d: int, m: int)
    requires
        m > 0,
        same(a, b, m),
        same(c, d, m),
    ensures
        same(a * c, b * d, m),
{
    lemma_mul_mod_noop_general(a, c, m);
    lemma_mul_mod_noop_general(b, d, m);
}

pub proof fn lemma_same_pow(a: int, b: int, e: nat, m: int)
    requires
        m > 0,
        same(a, b, m),
    ensures
        same(pow(a, e), pow(b, e), m),
{
    lemma_pow_mod_noop(a, e, m);
    lemma_pow_mod_noop(b, e, m);
}

pub proof fn lemma_total_same(f: spec_fn(nat) -> int, g: spec_fn(nat) -> int, n: nat, m: int)
    requires
        m > 0,
        forall|i: nat| i < n ==> same(#[trigger] f(i), g(i), m),
    ensures
        same(total(f, n), total(g, n), m),
    decreases n,
{
    if n > 0 {
        let last = (n - 1) as nat;
        lemma_total_same(f, g, last, m);
        assert(same(f(last), g(last), m));
        lemma_same_add(total(f, last), total(g, last), f(last), g(last), m);
    }
}

pub proof fn lemma_total_scale(f: spec_fn(nat) -> int, c: int, n: nat)
    ensures
        total(|i: nat| c * f(i), n) == c * total(f, n),
    decreases n,
{
    if n > 0 {
        let last = (n - 1) as nat;
        lemma_total_scale(f, c, last);
        lemma_mul_is_distributive_add(c, total(f, last), f(last));
    }
}

pub proof fn lemma_total_add(f: spec_fn(nat) -> int, g: spec_fn(nat) -> int, n: nat)
    ensures
        total(|i: nat| f(i) + g(i), n) == total(f, n) + total(g, n),
    decreases n,
{
    if n > 0 {
        lemma_total_add(f, g, (n - 1) as nat);
    }
}

/// The order of two sums does not matter.
pub proof fn lemma_total_swap(f: spec_fn(nat, nat) -> int, n: nat, k: nat)
    ensures
        total(|i: nat| total(|j: nat| f(i, j), k), n) == total(
            |j: nat| total(|i: nat| f(i, j), n),
            k,
        ),
    decreases n,
{
    let rows = |i: nat| total(|j: nat| f(i, j), k);
    let columns = |j: nat| total(|i: nat| f(i, j), n);
    if n == 0 {
        lemma_total_zero(columns, k);
    } else {
        let last = (n - 1) as nat;
        lemma_total_swap(f, last, k);
        let before = |j: nat| total(|i: nat| f(i, j), last);
        let own = |j: nat| f(last, j);
        lemma_total_add(before, own, k);
        assert(columns =~= |j: nat| before(j) + own(j));
        assert(rows(last) == total(own, k));
    }
}

pub proof fn lemma_total_zero(f: spec_fn(nat) -> int, n: nat)
    requires
        forall|i: nat| i < n ==> #[trigger] f(i) == 0,
    ensures
        total(f, n) == 0,
    decreases n,
{
    if n > 0 {
        lemma_total_zero(f, (n - 1) as nat);
    }
}

/// A sum with a single term.
pub proof fn lemma_total_single(f: spec_fn(nat) -> int, at: nat, n: nat, m: int)
    requires
        m > 0,
        at < n,
        forall|i: nat| i < n && i != at ==> same(#[trigger] f(i), 0, m),
    ensures
        same(total(f, n), f(at), m),
    decreases n,
{
    let last = (n - 1) as nat;
    if at == last {
        let zero = |i: nat| 0int;
        lemma_total_same(f, zero, last, m);
        lemma_total_zero(zero, last);
        lemma_same_add(total(f, last), 0, f(last), f(last), m);
    } else {
        lemma_total_single(f, at, last, m);
        lemma_same_add(total(f, last), f(at), f(last), 0, m);
    }
}

/// The sum of `2 h` powers of `x` is `1 + x^h` times that of `h` powers.
proof fn lemma_powers_double(x: int, h: nat)
    ensures
        total(powers_total(x), 2 * h) == (1 + pow(x, h)) * total(powers_total(x), h),
{
    lemma_powers_tail(x, h, h);
    let g = total(powers_total(x), h);
    assert(g + pow(x, h) * g == (1 + pow(x, h)) * g) by (nonlinear_arith);
}

proof fn lemma_powers_tail(x: int, h: nat, more: nat)
    ensures
        total(powers_total(x), h + more) == total(powers_total(x), h) + pow(x, h) * total(
            powers_total(x),
            more,
        ),
    decreases more,
{
    if more > 0 {
        let last = (more - 1) as nat;
        lemma_powers_tail(x, h, last);
        lemma_pow_adds(x, h, last);
        lemma_mul_is_distributive_add(
            pow(x, h),
            total(powers_total(x), last),
            pow(x, last),
        );
    }
}

/// The powers of a root of unity add up to 0.
proof fn lemma_powers_vanish(root: int, n: nat, e: nat, m: int)
    requires
        m > 0,
        power_of_two(n),
        n > 1,
        same(pow(root, n / 2), -1, m),
        0 < e < n,
    ensures
        same(total(powers_total(pow(root, e)), n), 0, m),
    decreases n,
{
    let h = n / 2;
    let x = pow(root, e);
    assert(n == 2 * h);
    lemma_powers_double(x, h);
    let g = total(powers_total(x), h);
    // x^h == (root^h)^e == (-1)^e
    lemma_pow_multiplies(root, e, h);
    lemma_pow_multiplies(root, h, e);
    lemma_mul_is_commutative(e as int, h as int);
    lemma_same_pow(pow(root, h), -1, e, m);
    lemma_minus_one(e);
    if e % 2 == 1 {
        lemma_same_add(1, 1, pow(x, h), -1, m);
        lemma_same_mul(1 + pow(x, h), 0, g, g, m);
    } else {
        let half = e / 2;
        assert(e == 2 * half);
        let square = pow(root, 2);
        lemma_pow_multiplies(root, 2, half);
        assert(x == pow(square, half));
        if h == 1 {
            assert(false);
        }
        reveal_with_fuel(power_of_two, 3);
        assert(h == 2 * (h / 2));
        lemma_pow_multiplies(root, 2, h / 2);
        assert(pow(square, h / 2) == pow(root, h));
        lemma_powers_vanish(square, h, half, m);
        lemma_same_mul(1 + pow(x, h), 1 + pow(x, h), g, 0, m);
    }
}

proof fn lemma_minus_one(e: nat)
    ensures
        pow(-1, e) == (if e % 2 == 0 {
            1int
        } else {
            -1int
        }),
    decreases e,
{
    if e == 0 {
        lemma_pow0(-1);
    } else {
        lemma_minus_one((e - 1) as nat);
        lemma_pow_adds(-1, (e - 1) as nat, 1);
        lemma_pow1(-1);
    }
}

/// A power of a root of unity depends on the exponent modulo the order alone.
proof fn lemma_root_period(root: int, n: nat, e: nat, m: int)
    requires
        m > 1,
        power_of_two(n),
        n > 1 ==> same(pow(root, n / 2), -1, m),
        n == 1 ==> same(root, 1, m),
    ensures
        same(pow(root, n), 1, m),
        same(pow(root, e), pow(root, e % n), m),
{
    if n > 1 {
        let h = n / 2;
        assert(n == h + h);
        lemma_pow_adds(root, h, h);
        lemma_same_mul(pow(root, h), -1, pow(root, h), -1, m);
    } else {
        lemma_pow1(root);
    }
    let q = e / n;
    let s = e % n;
    lemma_fundamental_div_mod(e as int, n as int);
    lemma_pow_adds(root, n * q, s);
    lemma_pow_multiplies(root, n, q);
    lemma_same_pow(pow(root, n), 1, q, m);
    lemma1_pow(q);
    lemma_same_mul(pow(root, n * q), 1, pow(root, s), pow(root, s), m);
}

/// The sum of the powers of `root^e` is `n` or 0.
proof fn lemma_powers_of_power(root: int, n: nat, e: nat, m: int)
    requires
        m > 1,
        power_of_two(n),
        n > 1 ==> same(pow(root, n / 2), -1, m),
        n == 1 ==> same(root, 1, m),
    ensures
        e % n == 0 ==> same(total(powers_total(pow(root, e)), n), n as int, m),
        e % n != 0 ==> same(total(powers_total(pow(root, e)), n), 0, m),
{
    lemma_root_period(root, n, e, m);
    let x = pow(root, e);
    let y = pow(root, e % n);
    let f = powers_total(x);
    let g = powers_total(y);
    assert forall|i: nat| i < n implies same(#[trigger] f(i), g(i), m) by {
        lemma_same_pow(x, y, i, m);
    }
    lemma_total_same(f, g, n, m);
    if e % n == 0 {
        lemma_pow0(root);
        assert forall|i: nat| i < n implies #[trigger] g(i) == 1 by {
            lemma1_pow(i);
        }
        lemma_total_ones(g, n);
    } else {
        lemma_powers_vanish(root, n, e % n, m);
    }
}

pub proof fn lemma_total_ones(f: spec_fn(nat) -> int, n: nat)
    requires
        forall|i: nat| i < n ==> #[trigger] f(i) == 1,
    ensures
        total(f, n) == n,
    decreases n,
{
    if n > 0 {
        lemma_total_ones(f, (n - 1) as nat);
    }
}

/// Evaluating a polynomial is adding up its terms.
pub proof fn lemma_evaluate(coefficients: Seq<nat>, x: nat, n: nat)
    ensures
        evaluate(coefficients, x, n) == total(
            |k: nat| coefficients[k as int] * pow(x as int, k),
            n,
        ),
    decreases n,
{
    if n > 0 {
        let last = (n - 1) as nat;
        lemma_evaluate(coefficients, x, last);
        lemma_pow_nonnegative(x, last);
    }
}

/// Transforming with `a` and then with `b`, where `a b` is a root of unity to the power that the
/// exponents differ by, multiplies by the number of values.
proof fn lemma_transform_twice(values: Seq<nat>, a: nat, b: nat, root: int, m: nat)
    requires
        m > 1,
        power_of_two(values.len()),
        values.len() > 1 ==> same(pow(root, values.len() / 2), -1, m as int),
        values.len() == 1 ==> same(root, 1, m as int),
        forall|k: nat, j: nat|
            k < values.len() && j < values.len() ==> #[trigger] aligned(
                a,
                b,
                k,
                j,
                root,
                values.len(),
                m,
            ),
    ensures
        dft(dft(values, a, m), b, m).len() == values.len(),
        forall|j: int|
            0 <= j < values.len() ==> same(
                #[trigger] dft(dft(values, a, m), b, m)[j] as int,
                (values[j] * values.len()) as int,
                m as int,
            ),
{
    let n = values.len();
    let mi = m as int;
    let once = dft(values, a, m);
    assert forall|j: int| 0 <= j < n implies same(
        #[trigger] dft(once, b, m)[j] as int,
        (values[j] * n) as int,
        mi,
    ) by {
        let jn = j as nat;
        let y = pow(b as int, jn);
        lemma_pow_nonnegative(b, jn);
        lemma_evaluate(once, y as nat, n);
        // The sum over i of (the sum over k of v_k a^(ik)) b^(ij).
        let outer = |i: nat| once[i as int] * pow(y, i);
        let double = |i: nat, k: nat| values[k as int] * (pow(pow(a as int, i), k) * pow(y, i));
        let rows = |i: nat| total(|k: nat| double(i, k), n);
        assert forall|i: nat| i < n implies same(#[trigger] outer(i), rows(i), mi) by {
            let x = pow(a as int, i);
            lemma_pow_nonnegative(a, i);
            lemma_evaluate(values, x as nat, n);
            let terms = |k: nat| values[k as int] * pow(x, k);
            let value = total(terms, n);
            assert(once[i as int] == value % mi);
            lemma_mod_twice(value, mi);
            lemma_same_mul(once[i as int] as int, value, pow(y, i), pow(y, i), mi);
            lemma_total_scale(terms, pow(y, i), n);
            lemma_mul_is_commutative(value, pow(y, i));
            let scaled = |k: nat| pow(y, i) * terms(k);
            let own = |k: nat| double(i, k);
            assert forall|k: nat| k < n implies #[trigger] scaled(k) == own(k) by {
                assert(pow(y, i) * (values[k as int] * pow(x, k)) == values[k as int] * (pow(x, k)
                    * pow(y, i))) by (nonlinear_arith);
            }
            lemma_total_equal(scaled, own, n);
        }
        lemma_total_same(outer, rows, n, mi);
        lemma_total_swap(double, n, n);
        // The sum over k of v_k times the sum over i of (a^k b^j)^i.
        let columns = |k: nat| total(|i: nat| double(i, k), n);
        assert forall|k: nat| k < n implies same(
            #[trigger] columns(k),
            if k == jn {
                (values[j] * n) as int
            } else {
                0
            },
            mi,
        ) by {
            assert(aligned(a, b, k, jn, root, n, m));
            let e = choose|e: nat|
                #[trigger] exponent(a, b, k, jn, root, e, m) && (e % n == 0 <==> k == jn);
            assert(exponent(a, b, k, jn, root, e, m));
            let x = pow(a as int, k) * y;
            let f = powers_total(x);
            let g = powers_total(pow(root, e));
            assert forall|i: nat| i < n implies same(#[trigger] f(i), g(i), mi) by {
                lemma_same_pow(x, pow(root, e), i, mi);
            }
            lemma_total_same(f, g, n, mi);
            lemma_powers_of_power(root, n, e, mi);
            lemma_total_scale(f, values[k as int] as int, n);
            let scaled = |i: nat| values[k as int] as int * f(i);
            let own = |i: nat| double(i, k);
            assert forall|i: nat| i < n implies #[trigger] scaled(i) == own(i) by {
                lemma_pow_distributes(pow(a as int, k), y, i);
                lemma_pow_multiplies(a as int, k, i);
                lemma_pow_multiplies(a as int, i, k);
                lemma_mul_is_commutative(i as int, k as int);
            }
            lemma_total_equal(scaled, own, n);
            if k == jn {
                lemma_same_mul(
                    values[k as int] as int,
                    values[k as int] as int,
                    total(f, n),
                    n as int,
                    mi,
                );
            } else {
                lemma_same_mul(
                    values[k as int] as int,
                    values[k as int] as int,
                    total(f, n),
                    0,
                    mi,
                );
            }
        }
        lemma_total_single(columns, jn, n, mi);
        lemma_mod_twice(total(outer, n), mi);
    }
}

/// Whether `a^k b^j` is `root^e`.
pub open spec fn exponent(a: nat, b: nat, k: nat, j: nat, root: int, e: nat, m: nat) -> bool {
    same(pow(a as int, k) * pow(b as int, j), pow(root, e), m as int)
}

/// Whether `a^k b^j` is a power of `root`, and 1 only for `k == j`.
pub open spec fn aligned(a: nat, b: nat, k: nat, j: nat, root: int, n: nat, m: nat) -> bool {
    exists|e: nat| #[trigger] exponent(a, b, k, j, root, e, m) && (e % n == 0 <==> k == j)
}

pub proof fn lemma_total_equal(f: spec_fn(nat) -> int, g: spec_fn(nat) -> int, n: nat)
    requires
        forall|i: nat| i < n ==> #[trigger] f(i) == g(i),
    ensures
        total(f, n) == total(g, n),
    decreases n,
{
    if n > 0 {
        lemma_total_equal(f, g, (n - 1) as nat);
    }
}

/// Squaring takes a power of two to the next one.
pub proof fn lemma_square_power(x: nat, e: nat, value: nat, next: nat, m: nat)
    requires
        m > 0,
        pow(x as int, pow2(e)) % (m as int) == value,
        (value * value) % m == next,
    ensures
        pow(x as int, pow2(e + 1)) % (m as int) == next,
{
    lemma_pow2_unfold(e + 1);
    let p = pow(x as int, pow2(e));
    lemma_pow_adds(x as int, pow2(e), pow2(e));
    lemma_mul_mod_noop_general(p, p, m as int);
}

/// The ceiling of the logarithm of a power of two is its logarithm.
pub proof fn lemma_log_of_power(n: nat)
    requires
        power_of_two(n),
    ensures
        pow2(ceil_log2(n)) == n,
    decreases n,
{
    lemma2_to64();
    if n > 1 {
        lemma_log_of_power(n / 2);
        assert((n + 1) / 2 == n / 2);
        lemma_pow2_unfold(ceil_log2(n));
    }
}

proof fn lemma_index(n: nat, k: nat, j: nat)
    requires
        k < n,
        j < n,
    ensures
        (k + (n - 1) * j) % (n as int) == 0 <==> k == j,
        k + (n - 1) * j >= 0,
{
    let d = k - j;
    assert(k + (n - 1) * j == n * j + d) by (nonlinear_arith)
        requires
            d == k - j,
    ;
    assert(n * j >= 0) by (nonlinear_arith);
    assert((n - 1) * j >= 0) by (nonlinear_arith)
        requires
            n >= 1,
    ;
    lemma_mod_multiples_vanish(j as int, d, n as int);
    if d >= 0 {
        lemma_small_mod(d as nat, n);
    } else {
        lemma_mod_multiples_vanish(1, d, n as int);
        lemma_small_mod((n + d) as nat, n);
    }
}

/// A root of unity and its inverse are aligned, in either order.
proof fn lemma_inverse_aligned(root: nat, n: nat, k: nat, j: nat, m: nat)
    requires
        k < n,
        j < n,
        m > 0,
    ensures
        ({
            let inverse = pow(root as int, (n - 1) as nat) as nat;
            aligned(root, inverse, k, j, root as int, n, m) && aligned(
                inverse,
                root,
                k,
                j,
                root as int,
                n,
                m,
            )
        }),
{
    let r = root as int;
    let last = (n - 1) as nat;
    lemma_pow_nonnegative(root, last);
    let inverse = pow(r, last) as nat;
    lemma_index(n, k, j);
    lemma_index(n, j, k);
    lemma_pow_multiplies(r, last, j);
    lemma_pow_adds(r, k, last * j);
    assert(exponent(root, inverse, k, j, r, k + last * j, m));
    lemma_pow_multiplies(r, last, k);
    lemma_pow_adds(r, last * k, j);
    assert(exponent(inverse, root, k, j, r, last * k + j, m));
}

/// The scale of the inverse transform is the inverse of the number of values.
proof fn lemma_scale(n: nat, m: nat)
    requires
        power_of_two(n),
        m > 1,
        m % 2 == 1,
    ensures
        ({
            let scale = pow(((m + 1) / 2) as int, ceil_log2(n));
            scale >= 0 && same(scale * n, 1, m as int)
        }),
{
    let half = (m + 1) / 2;
    let c = ceil_log2(n);
    lemma_log_of_power(n);
    lemma_pow2(c);
    lemma_pow_distributes(half as int, 2, c);
    assert(half * 2 == m + 1);
    lemma_mod_multiples_vanish(1, 1, m as int);
    lemma_same_pow((m + 1) as int, 1, c, m as int);
    lemma1_pow(c);
    lemma_pow_nonnegative(half, c);
}

/// The value at a point is scaled with the coefficients.
proof fn lemma_evaluate_scaled(u: Seq<nat>, w: Seq<nat>, scale: int, x: nat, n: nat, m: nat)
    requires
        m > 0,
        n <= u.len() == w.len(),
        forall|i: int| 0 <= i < n ==> same(#[trigger] u[i] as int, scale * w[i], m as int),
    ensures
        same(evaluate(u, x, n) as int, scale * evaluate(w, x, n), m as int),
    decreases n,
{
    if n > 0 {
        let last = (n - 1) as nat;
        let mi = m as int;
        lemma_evaluate_scaled(u, w, scale, x, last, m);
        lemma_pow_nonnegative(x, last);
        let p = pow(x as int, last);
        assert(p as nat == p);
        assert(evaluate(u, x, n) == evaluate(u, x, last) + u[last as int] * (p as nat));
        assert(evaluate(w, x, n) == evaluate(w, x, last) + w[last as int] * (p as nat));
        lemma_same_mul(u[last as int] as int, scale * w[last as int], p, p, mi);
        lemma_mul_is_associative(scale, w[last as int] as int, p);
        lemma_same_add(
            evaluate(u, x, last) as int,
            scale * evaluate(w, x, last),
            u[last as int] * p,
            scale * (w[last as int] * p),
            mi,
        );
        lemma_mul_is_distributive_add(
            scale,
            evaluate(w, x, last) as int,
            w[last as int] * p,
        );
    } else {
        assert(scale * 0 == 0);
    }
}

/// The discrete Fourier transform and its inverse undo each other, for a power of two of residues
/// modulo an odd number and a root whose power to half their number is -1.
pub proof fn law_dft_inverts(values: Seq<nat>, root: nat, m: nat)
    requires
        m > 1,
        m % 2 == 1,
        power_of_two(values.len()),
        values.len() > 1 ==> same(pow(root as int, values.len() / 2), -1, m as int),
        values.len() == 1 ==> same(root as int, 1, m as int),
        forall|i: int| 0 <= i < values.len() ==> #[trigger] values[i] < m,
    ensures
        inverse_dft(dft(values, root, m), root, m) == values,
        dft(inverse_dft(values, root, m), root, m) == values,
{
    let n = values.len();
    let mi = m as int;
    let half = ((m + 1) / 2) as int;
    let scale = pow(half, ceil_log2(n));
    let inverse = pow(root as int, (n - 1) as nat) as nat;
    lemma_scale(n, m);
    lemma_pow_nonnegative(root, (n - 1) as nat);
    assert forall|k: nat, j: nat| k < n && j < n implies #[trigger] aligned(
        root,
        inverse,
        k,
        j,
        root as int,
        n,
        m,
    ) by {
        lemma_inverse_aligned(root, n, k, j, m);
    }
    assert forall|k: nat, j: nat| k < n && j < n implies #[trigger] aligned(
        inverse,
        root,
        k,
        j,
        root as int,
        n,
        m,
    ) by {
        lemma_inverse_aligned(root, n, k, j, m);
    }
    lemma_transform_twice(values, root, inverse, root as int, m);
    lemma_transform_twice(values, inverse, root, root as int, m);
    let back = inverse_dft(dft(values, root, m), root, m);
    let twice = dft(dft(values, root, m), inverse, m);
    assert forall|j: int| 0 <= j < n implies #[trigger] back[j] == values[j] by {
        assert(same(twice[j] as int, (values[j] * n) as int, mi));
        lemma_unscale(twice[j] as int, scale, values[j], n, mi);
    }
    assert(back =~= values);
    let w = dft(values, inverse, m);
    let u = inverse_dft(values, root, m);
    let forth = dft(u, root, m);
    let again = dft(w, root, m);
    assert forall|i: int| 0 <= i < n implies same(
        #[trigger] u[i] as int,
        scale * w[i],
        mi,
    ) by {
        lemma_mod_twice(scale * w[i], mi);
    }
    assert forall|j: int| 0 <= j < n implies #[trigger] forth[j] == values[j] by {
        let x = pow(root as int, j as nat);
        lemma_pow_nonnegative(root, j as nat);
        lemma_evaluate_scaled(u, w, scale, x as nat, n, m);
        let value = evaluate(w, x as nat, n) as int;
        assert(same(again[j] as int, (values[j] * n) as int, mi));
        assert(again[j] == value % mi);
        lemma_mod_twice(value, mi);
        lemma_unscale(value, scale, values[j], n, mi);
    }
    assert(forth =~= values);
}

proof fn lemma_unscale(value: int, scale: int, expected: nat, n: nat, m: int)
    requires
        m > 1,
        expected < m,
        same(value, (expected * n) as int, m),
        same(scale * n, 1, m),
    ensures
        (scale * value) % m == expected,
{
    lemma_same_mul(scale, scale, value, (expected * n) as int, m);
    assert(scale * (expected * n) == expected * (scale * n)) by (nonlinear_arith);
    lemma_same_mul(expected as int, expected as int, scale * n, 1, m);
    lemma_small_mod(expected, m as nat);
}

} // verus!
