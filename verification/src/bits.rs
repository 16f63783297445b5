//! Binary digits of natural numbers: bit length, single bits, and the
//! arithmetic facts about powers of two that the rounding proofs rest on.

use vstd::prelude::*;
use vstd::arithmetic::power2::*;
use vstd::arithmetic::div_mod::*;
use vstd::arithmetic::mul::*;

verus! {

/// The number of binary digits of `n`: zero for zero, and otherwise the `k`
/// with `2^(k-1) <= n < 2^k`.
pub open spec fn bit_length(n: nat) -> nat
    decreases n,
{
    if n == 0 {
        0
    } else {
        1 + bit_length(n / 2)
    }
}

/// Whether the binary digit of weight `2^i` is set in `n`.
pub open spec fn bit_at(n: nat, i: nat) -> bool {
    (n / pow2(i)) % 2 == 1
}

/// `2^a <= 2^b` whenever `a <= b`.
pub proof fn lemma_pow2_increases(a: nat, b: nat)
    requires
        a <= b,
    ensures
        pow2(a) <= pow2(b),
{
    if a < b {
        lemma_pow2_strictly_increases(a, b);
    }
}

/// A quotient lies between any bounds that the dividend lies between after
/// scaling by the divisor.
pub proof fn lemma_div_between(n: int, d: int, lo: int, hi: int)
    requires
        d > 0,
        lo * d <= n < hi * d,
    ensures
        lo <= n / d < hi,
{
    lemma_fundamental_div_mod(n, d);
    lemma_mod_bound(n, d);
    assert(lo <= n / d < hi) by (nonlinear_arith)
        requires
            d > 0,
            lo * d <= n < hi * d,
            n == d * (n / d) + n % d,
            0 <= n % d < d,
    ;
}

/// A positive number lies between the two powers of two that its bit length
/// names.
pub proof fn lemma_bit_length_bounds(n: nat)
    requires
        n > 0,
    ensures
        bit_length(n) >= 1,
        pow2((bit_length(n) - 1) as nat) <= n < pow2(bit_length(n)),
    decreases n,
{
    lemma2_to64();
    if n == 1 {
        assert(bit_length(0) == 0);
        assert(bit_length(1) == 1 + bit_length(0));
    } else {
        let h = n / 2;
        lemma_bit_length_bounds(h);
        let k = bit_length(h);
        lemma_pow2_unfold(k);
        lemma_pow2_unfold(k + 1);
    }
}

/// The bit length is the only `k` with `2^(k-1) <= n < 2^k`.
pub proof fn lemma_bit_length_unique(n: nat, k: nat)
    requires
        k >= 1,
        pow2((k - 1) as nat) <= n < pow2(k),
    ensures
        bit_length(n) == k,
{
    lemma_pow2_pos((k - 1) as nat);
    lemma_bit_length_bounds(n);
    let b = bit_length(n);
    if b < k {
        lemma_pow2_increases(b, (k - 1) as nat);
    } else if b > k {
        lemma_pow2_increases(k, (b - 1) as nat);
    }
}

/// Multiplying by `2^k` adds `k` binary digits.
pub proof fn lemma_bit_length_shl(n: nat, k: nat)
    requires
        n > 0,
    ensures
        bit_length(n * pow2(k)) == bit_length(n) + k,
{
    lemma_bit_length_bounds(n);
    let b = bit_length(n);
    lemma_pow2_adds((b - 1) as nat, k);
    lemma_pow2_adds(b, k);
    lemma_pow2_pos(k);
    lemma_mul_inequality(pow2((b - 1) as nat) as int, n as int, pow2(k) as int);
    lemma_mul_strict_inequality(n as int, pow2(b) as int, pow2(k) as int);
    lemma_bit_length_unique(n * pow2(k), b + k);
}

/// Dividing by `2^k` removes `k` binary digits, as long as some are left.
pub proof fn lemma_bit_length_shr(n: nat, k: nat)
    requires
        bit_length(n) > k,
    ensures
        bit_length(n / pow2(k)) == bit_length(n) - k,
{
    lemma_bit_length_bounds(n);
    let b = bit_length(n);
    lemma_pow2_adds((b - 1 - k) as nat, k);
    lemma_pow2_adds((b - k) as nat, k);
    lemma_pow2_pos(k);
    lemma_div_between(
        n as int,
        pow2(k) as int,
        pow2((b - 1 - k) as nat) as int,
        pow2((b - k) as nat) as int,
    );
    lemma_bit_length_unique(n / pow2(k), (b - k) as nat);
}

/// `2^k` has `k + 1` binary digits.
pub proof fn lemma_bit_length_pow2(k: nat)
    ensures
        bit_length(pow2(k)) == k + 1,
{
    lemma_pow2_strictly_increases(k, k + 1);
    lemma_bit_length_unique(pow2(k), k + 1);
}

/// `2^k - 1` has `k` binary digits.
pub proof fn lemma_bit_length_all_ones(k: nat)
    ensures
        bit_length((pow2(k) - 1) as nat) == k,
{
    lemma_pow2_pos(k);
    if k == 0 {
        lemma2_to64();
        assert(bit_length(0) == 0);
    } else {
        lemma_pow2_unfold(k);
        lemma_pow2_pos((k - 1) as nat);
        lemma_bit_length_unique((pow2(k) - 1) as nat, k);
    }
}

/// Below `2^(k+1)`, the bit of weight `2^k` is set exactly from `2^k` on.
pub proof fn lemma_bit_at_top(n: nat, k: nat)
    requires
        n < pow2(k + 1),
    ensures
        bit_at(n, k) == (n >= pow2(k)),
{
    lemma_pow2_pos(k);
    lemma_pow2_unfold(k + 1);
    let d = pow2(k) as int;
    lemma_fundamental_div_mod(n as int, d);
    lemma_mod_bound(n as int, d);
    if n >= pow2(k) {
        lemma_div_between(n as int, d, 1, 2);
    } else {
        lemma_div_between(n as int, d, 0, 1);
    }
}

/// A number with a positive bit length is positive.
pub proof fn lemma_bit_length_positive(n: nat)
    requires
        bit_length(n) > 0,
    ensures
        n > 0,
{
    if n == 0 {
        assert(bit_length(n) == 0);
    }
}

/// A number below `2^k` has at most `k` binary digits.
pub proof fn lemma_bit_length_below(n: nat, k: nat)
    requires
        n < pow2(k),
    ensures
        bit_length(n) <= k,
{
    if n == 0 {
        assert(bit_length(n) == 0);
    } else {
        lemma_bit_length_bounds(n);
        if bit_length(n) > k {
            lemma_pow2_increases(k, (bit_length(n) - 1) as nat);
        }
    }
}

/// A number between `lo * 2^k` and `hi * 2^k`, for `lo` and `hi` of `j` bits
/// or `hi` the next power of two, has `j + k` binary digits.
pub proof fn lemma_bit_length_scaled(n: nat, j: nat, k: nat)
    requires
        j >= 1,
        pow2((j - 1) as nat) * pow2(k) <= n < pow2(j) * pow2(k),
    ensures
        bit_length(n) == j + k,
{
    lemma_pow2_adds((j - 1) as nat, k);
    lemma_pow2_adds(j, k);
    lemma_bit_length_unique(n, j + k);
}

} // verus!
