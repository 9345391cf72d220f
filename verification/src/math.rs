use vstd::arithmetic::power::pow;
use vstd::arithmetic::power2::{
    lemma2_to64, lemma_pow2_pos, lemma_pow2_strictly_increases, lemma_pow2_unfold, pow2,
};
use vstd::prelude::*;

verus! {

/// The number written by `limbs`, least significant limb first.
pub open spec fn limbs_value(limbs: Seq<u64>) -> nat
    decreases limbs.len(),
{
    if limbs.len() == 0 {
        0
    } else {
        limbs[0] as nat + 0x1_0000_0000_0000_0000nat * limbs_value(limbs.skip(1))
    }
}

/// The number written by `bytes`, least significant byte first.
pub open spec fn le_value(bytes: Seq<u8>) -> nat
    decreases bytes.len(),
{
    if bytes.len() == 0 {
        0
    } else {
        bytes[0] as nat + 256 * le_value(bytes.skip(1))
    }
}

/// The number written by `bytes`, most significant byte first.
pub open spec fn be_value(bytes: Seq<u8>) -> nat {
    le_value(bytes.reverse())
}

/// The little-endian numbers of each eight of the bytes.
pub open spec fn words(bytes: Seq<u8>) -> Seq<u64> {
    Seq::new(bytes.len() / 8, |i: int| le_value(bytes.subrange(8 * i, 8 * i + 8)) as u64)
}

/// Whether `n` is a power of two.
pub open spec fn power_of_two(n: nat) -> bool
    decreases n,
{
    n == 1 || (n > 1 && n % 2 == 0 && power_of_two(n / 2))
}

/// The least power of two that is not below `n`.
pub open spec fn power_at_least(n: nat) -> nat
    decreases n,
{
    if n <= 1 {
        1
    } else {
        2 * power_at_least((n + 1) / 2)
    }
}

/// The ceiling of the base-2 logarithm of `n`, and 0 for 0.
pub open spec fn ceil_log2(n: nat) -> nat
    decreases n,
{
    if n <= 1 {
        0
    } else {
        1 + ceil_log2((n + 1) / 2)
    }
}

/// The size of the smallest radix-2 evaluation domain with at least `n` elements, in a field
/// whose multiplicative group has a subgroup of order `2^adicity`.
pub open spec fn domain_size(n: nat, adicity: nat) -> Option<nat> {
    let size = power_at_least(n);
    if size <= pow2(adicity) && size <= usize::MAX {
        Some(size)
    } else {
        None
    }
}

/// The value at `x` of the polynomial with the first `terms` of `coefficients`, constant first.
pub open spec fn evaluate(coefficients: Seq<nat>, x: nat, terms: nat) -> nat
    decreases terms,
{
    if terms == 0 {
        0
    } else {
        let last = (terms - 1) as nat;
        evaluate(coefficients, x, last) + coefficients[last as int] * (pow(x as int, last) as nat)
    }
}

/// The discrete Fourier transform modulo `order`: the values of the polynomial with these
/// coefficients at the successive powers of `root`.
pub open spec fn dft(coefficients: Seq<nat>, root: nat, order: nat) -> Seq<nat> {
    Seq::new(
        coefficients.len(),
        |i: int|
            evaluate(coefficients, pow(root as int, i as nat) as nat, coefficients.len()) % order,
    )
}

/// The inverse transform modulo the odd `order`, for a power of two of values: the transform at
/// the inverse of the root, divided by the number of values.
pub open spec fn inverse_dft(values: Seq<nat>, root: nat, order: nat) -> Seq<nat> {
    let half = ((order + 1) / 2) as int;
    let scale = pow(half, ceil_log2(values.len())) as nat;
    let inverse_root = pow(root as int, (values.len() - 1) as nat) as nat;
    Seq::new(
        values.len(),
        |i: int| (scale * dft(values, inverse_root, order)[i]) % order,
    )
}

/// Whether two numbers are written by the same limbs.
pub fn limbs_equal<const N: usize>(a: &[u64; N], b: &[u64; N]) -> (res: bool)
    ensures
        res == (*a == *b),
{
    let mut i: usize = 0;
    while i < N
        invariant
            i <= N,
            forall|j: int| 0 <= j < i ==> a@[j] == b@[j],
        decreases N - i,
    {
        if a[i] != b[i] {
            return false;
        }
        i = i + 1;
    }
    proof {
        assert(a@ =~= b@);
        assert(*a =~= *b);
    }
    true
}

/// Whether `n` is a power of two.
pub fn is_power_of_two(n: usize) -> (res: bool)
    ensures
        res == power_of_two(n as nat),
{
    if n == 0 {
        return false;
    }
    let mut m: usize = n;
    while m % 2 == 0
        invariant
            m > 0,
            power_of_two(m as nat) == power_of_two(n as nat),
        decreases m,
    {
        m = m / 2;
    }
    m == 1
}

/// Whether the number written by `a` is below the one written by `b`.
pub fn below<const N: usize>(a: &[u64; N], b: &[u64; N]) -> (res: bool)
    ensures
        res == (limbs_value(a@) < limbs_value(b@)),
{
    let mut less: bool = false;
    let mut equal: bool = true;
    let mut i: usize = N;
    proof {
        assert(a@.skip(N as int) =~= Seq::empty());
        assert(b@.skip(N as int) =~= Seq::empty());
    }
    while i > 0
        invariant
            i <= N,
            less == (limbs_value(a@.skip(i as int)) < limbs_value(b@.skip(i as int))),
            equal == (limbs_value(a@.skip(i as int)) == limbs_value(b@.skip(i as int))),
        decreases i,
    {
        i = i - 1;
        proof {
            assert(a@.skip(i as int).skip(1) =~= a@.skip(i + 1));
            assert(b@.skip(i as int).skip(1) =~= b@.skip(i + 1));
        }
        less = less || (equal && a[i] < b[i]);
        equal = equal && a[i] == b[i];
    }
    proof {
        assert(a@.skip(0) =~= a@);
        assert(b@.skip(0) =~= b@);
    }
    less
}

/// Two to the power of `exponent`, where that fits.
pub fn power_of_two_at(exponent: usize) -> (res: Option<usize>)
    ensures
        match res {
            Some(power) => power == pow2(exponent as nat),
            None => pow2(exponent as nat) > usize::MAX,
        },
{
    let mut power: usize = 1;
    let mut i: usize = 0;
    proof {
        lemma2_to64();
    }
    while i < exponent
        invariant
            i <= exponent,
            power == pow2(i as nat),
        decreases exponent - i,
    {
        proof {
            lemma_pow2_unfold((i + 1) as nat);
        }
        if power > usize::MAX / 2 {
            proof {
                if i + 1 < exponent {
                    lemma_pow2_strictly_increases((i + 1) as nat, exponent as nat);
                }
            }
            return None;
        }
        power = power * 2;
        i = i + 1;
    }
    Some(power)
}

proof fn lemma_le_value_split(bytes: Seq<u8>, at: nat)
    requires
        at <= bytes.len(),
    ensures
        le_value(bytes) == le_value(bytes.take(at as int)) + pow256(at) * le_value(
            bytes.skip(at as int),
        ),
        le_value(bytes.take(at as int)) < pow256(at),
    decreases at,
{
    if at == 0 {
        assert(bytes.take(0) =~= Seq::empty());
        assert(bytes.skip(0) =~= bytes);
        assert(pow256(0) == 1);
    } else {
        let rest = bytes.skip(1);
        lemma_le_value_split(rest, (at - 1) as nat);
        assert(bytes.take(at as int).skip(1) =~= rest.take(at - 1));
        assert(rest.skip(at - 1) =~= bytes.skip(at as int));
        let p = pow256((at - 1) as nat);
        let v = le_value(bytes.skip(at as int));
        assert(pow256(at) * v == 256 * (p * v)) by (nonlinear_arith)
            requires
                pow256(at) == 256 * p,
        ;
    }
}

spec fn pow256(e: nat) -> nat
    decreases e,
{
    if e == 0 {
        1
    } else {
        256 * pow256((e - 1) as nat)
    }
}

/// Bytes and their words write the same number.
pub proof fn lemma_le_value_words(bytes: Seq<u8>)
    requires
        bytes.len() % 8 == 0,
    ensures
        limbs_value(words(bytes)) == le_value(bytes),
    decreases bytes.len(),
{
    if bytes.len() > 0 {
        let rest = bytes.skip(8);
        lemma_le_value_words(rest);
        lemma_le_value_split(bytes, 8);
        reveal_with_fuel(pow256, 9);
        assert(bytes.subrange(0, 8) =~= bytes.take(8));
        assert(words(bytes).skip(1) =~= words(rest)) by {
            assert forall|i: int| 0 <= i < words(rest).len() implies #[trigger] words(
                bytes,
            ).skip(1)[i] == words(rest)[i] by {
                assert(bytes.subrange(8 * (i + 1), 8 * (i + 1) + 8) =~= rest.subrange(
                    8 * i,
                    8 * i + 8,
                ));
            }
        }
    }
}

/// A number is written by one sequence of limbs of each length.
pub proof fn lemma_limbs_injective(a: Seq<u64>, b: Seq<u64>)
    requires
        a.len() == b.len(),
        limbs_value(a) == limbs_value(b),
    ensures
        a == b,
    decreases a.len(),
{
    if a.len() > 0 {
        lemma_limbs_injective(a.skip(1), b.skip(1));
        assert forall|i: int| 0 <= i < a.len() implies a[i] == b[i] by {
            if i > 0 {
                assert(a.skip(1)[i - 1] == b.skip(1)[i - 1]);
            }
        }
    }
    assert(a =~= b);
}

pub proof fn lemma_four_limbs(limbs: Seq<u64>)
    requires
        limbs.len() == 4,
    ensures
        limbs_value(limbs) == limbs[0] + 0x1_0000_0000_0000_0000nat * (limbs[1]
            + 0x1_0000_0000_0000_0000nat * (limbs[2] + 0x1_0000_0000_0000_0000nat * limbs[3])),
{
    reveal_with_fuel(limbs_value, 5);
}

pub proof fn lemma_six_limbs(limbs: Seq<u64>)
    requires
        limbs.len() == 6,
    ensures
        limbs_value(limbs) == limbs[0] + 0x1_0000_0000_0000_0000nat * (limbs[1]
            + 0x1_0000_0000_0000_0000nat * (limbs[2] + 0x1_0000_0000_0000_0000nat * (limbs[3]
            + 0x1_0000_0000_0000_0000nat * (limbs[4] + 0x1_0000_0000_0000_0000nat * limbs[5])))),
{
    reveal_with_fuel(limbs_value, 7);
}

pub proof fn lemma_power_at_least(n: nat)
    ensures
        power_of_two(power_at_least(n)),
        power_at_least(n) >= n,
        n > 1 ==> power_at_least(n) < 2 * n,
        power_at_least(n) >= 1,
    decreases n,
{
    if n > 1 {
        lemma_power_at_least((n + 1) / 2);
        let half = power_at_least((n + 1) / 2);
        assert((2 * half) / 2 == half);
        assert((2 * half) % 2 == 0);
    }
}

pub proof fn lemma_pow2_is_power(exponent: nat)
    ensures
        power_of_two(pow2(exponent)),
    decreases exponent,
{
    lemma2_to64();
    if exponent > 0 {
        lemma_pow2_is_power((exponent - 1) as nat);
        lemma_pow2_unfold(exponent);
        lemma_pow2_pos((exponent - 1) as nat);
    }
}

/// A domain of the size of a domain is that domain.
pub proof fn lemma_domain_size(n: nat, adicity: nat)
    requires
        domain_size(n, adicity) is Some,
    ensures
        ({
            let size = domain_size(n, adicity)->0;
            &&& power_of_two(size)
            &&& domain_size(size, adicity) == Some(size)
            &&& size >= n
            &&& size >= 1
        }),
{
    lemma_power_at_least(n);
    lemma_power_of_two_fixed(power_at_least(n));
}

pub proof fn lemma_power_of_two_fixed(n: nat)
    requires
        power_of_two(n),
    ensures
        power_at_least(n) == n,
    decreases n,
{
    if n > 1 {
        lemma_power_of_two_fixed(n / 2);
        assert((n + 1) / 2 == n / 2);
    }
}

} // verus!
