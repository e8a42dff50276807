//! Powers of two and logarithms.

use vstd::prelude::*;

verus! {

/// The integer part of the binary logarithm; 0 for 0.
pub open spec fn log2(n: nat) -> nat
    decreases n,
{
    if n <= 1 {
        0
    } else {
        1 + log2(n / 2)
    }
}

/// 2 to the power of `n`.
pub open spec fn pow2(n: nat) -> nat
    decreases n,
{
    if n == 0 {
        1
    } else {
        2 * pow2((n - 1) as nat)
    }
}

/// A positive number lies between the power of two at its logarithm and the next one.
pub proof fn log2_bounds(n: nat)
    requires
        n > 0,
    ensures
        pow2(log2(n)) <= n < pow2(log2(n) + 1),
    decreases n,
{
    reveal_with_fuel(pow2, 2);
    if n > 1 {
        log2_bounds(n / 2);
    }
}

/// Computes the logarithm.
pub fn floor_log2(n: usize) -> (result: usize)
    ensures
        result == log2(n as nat),
        result < usize::BITS,
{
    let mut rest: usize = n;
    let mut result: usize = 0;
    while rest > 1
        invariant
            result + log2(rest as nat) == log2(n as nat),
            rest * pow2(result as nat) <= n || result == 0,
            result == 0 ==> rest == n,
            result < usize::BITS,
            pow2(result as nat) <= n || result == 0,
        decreases rest,
    {
        proof {
            let r = result as nat;
            let half = (rest / 2) as int;
            let p = pow2(r) as int;
            let q = rest as int;
            assert(pow2(r + 1) == 2 * p);
            assert(half * (2 * p) <= q * p) by (nonlinear_arith)
                requires
                    half * 2 <= q,
                    p >= 0,
            ;
            if result == 0 {
                assert(q * p == q) by (nonlinear_arith)
                    requires
                        p == 1,
                ;
            }
            assert(2 * p <= half * (2 * p)) by (nonlinear_arith)
                requires
                    half >= 1,
                    p >= 0,
            ;
            lemma_exponent_fits((r + 1) as nat, n);
        }
        rest = rest / 2;
        result = result + 1;
    }
    result
}

/// The number lies so close below the next power of two that its logarithm is rounded up to a whole
/// number in single precision, where numbers have 24 significant bits. In units of the last of
/// these bits, the number is rounded to one that lies at most 11 below the power, or at most 22 if
/// the logarithm is above 32 and has one bit less behind the point.
pub open spec fn rounds_up(n: nat) -> bool {
    let k = log2(n);
    let gap = 2 * pow2(k) - n;
    if k < 32 {
        gap * 0x100_0000 < 23 * pow2(k)
    } else {
        gap * 0x100_0000 <= 45 * pow2(k)
    }
}

/// The integer part of the binary logarithm in single precision, with every step rounded to the
/// nearest number; 0 for 0.
pub open spec fn single_log2(n: nat) -> nat {
    if rounds_up(n) {
        log2(n) + 1
    } else {
        log2(n)
    }
}

/// Computes the logarithm as single precision gives it.
pub fn single_precision_log2(n: usize) -> (result: usize)
    ensures
        result == single_log2(n as nat),
        result <= usize::BITS,
{
    let k: usize = floor_log2(n);
    let power: u128 = power_of_two(k as u8);
    proof {
        if n > 0 {
            log2_bounds(n as nat);
            assert(pow2((k + 1) as nat) == 2 * pow2(k as nat));
        }
    }
    let gap: u128 = 2 * power - n as u128;
    let up = if k < 32 {
        gap * 0x100_0000 < 23 * power
    } else {
        gap * 0x100_0000 <= 45 * power
    };
    if up {
        k + 1
    } else {
        k
    }
}

/// Small numbers have exact logarithms.
pub proof fn small_logarithms_are_exact(n: nat)
    requires
        n < 0x1f_ffff,
    ensures
        single_log2(n) == log2(n),
{
    let k = log2(n);
    if n > 0 {
        log2_bounds(n);
        assert(pow2(k + 1) == 2 * pow2(k));
        assert(pow2(20) == 0x10_0000 && pow2(21) == 0x20_0000) by {
            reveal_with_fuel(pow2, 22);
        }
        if k > 20 {
            lemma_pow2_grows(21, k);
        } else {
            lemma_pow2_grows(k, 20);
        }
    }
}

/// A power of two that fits in a machine word has a small exponent.
proof fn lemma_exponent_fits(e: nat, n: usize)
    requires
        pow2(e) <= n,
    ensures
        e < usize::BITS,
{
    assert(usize::BITS == 32 || usize::BITS == 64);
    if e >= usize::BITS {
        lemma_pow2_grows(usize::BITS as nat, e);
        lemma_pow2_of_words();
    }
}

/// A greater exponent gives a power that is no smaller.
pub proof fn lemma_pow2_grows(a: nat, b: nat)
    requires
        a <= b,
    ensures
        pow2(a) <= pow2(b),
    decreases b,
{
    if a < b {
        lemma_pow2_grows(a, (b - 1) as nat);
    }
}

/// Powers multiply when their exponents add up.
pub proof fn lemma_pow2_adds(a: nat, b: nat)
    ensures
        pow2(a + b) == pow2(a) * pow2(b),
    decreases b,
{
    if b > 0 {
        lemma_pow2_adds(a, (b - 1) as nat);
        let x = pow2(a) as int;
        let y = pow2((b - 1) as nat) as int;
        assert(2 * (x * y) == x * (2 * y)) by (nonlinear_arith);
        assert(pow2(a + b) == 2 * pow2((a + b - 1) as nat));
    } else {
        assert(pow2(a) * 1 == pow2(a));
    }
}

/// The numbers of values of machine words.
pub proof fn lemma_pow2_of_words()
    ensures
        pow2(32) == 0x1_0000_0000,
        pow2(64) == 0x1_0000_0000_0000_0000,
{
    reveal_with_fuel(pow2, 65);
}

/// The number of values of a word of 128 bits.
pub proof fn lemma_pow2_128()
    ensures
        pow2(128) == 0x1_0000_0000_0000_0000_0000_0000_0000_0000,
{
    lemma_pow2_of_words();
    lemma_pow2_adds(64, 64);
}

/// Computes a power of two.
pub fn power_of_two(exponent: u8) -> (result: u128)
    requires
        exponent < 128,
    ensures
        result == pow2(exponent as nat),
{
    let mut result: u128 = 1;
    let mut i: u8 = 0;
    while i < exponent
        invariant
            i <= exponent < 128,
            result == pow2(i as nat),
        decreases exponent - i,
    {
        proof {
            lemma_pow2_grows((i + 1) as nat, 127);
            lemma_pow2_128();
            assert(pow2(128) == 2 * pow2(127));
            assert(pow2((i + 1) as nat) == 2 * pow2(i as nat));
        }
        result = 2 * result;
        i = i + 1;
    }
    result
}

/// A logarithm in single precision is exact at powers of two, exceeds the exact one by at most one,
/// and does not decrease as numbers grow. A number for which it is not exact lies within two
/// millionths of the next power of two.
pub proof fn single_precision_is_close(n: nat, m: nat, k: nat)
    requires
        0 < n <= m,
    ensures
        log2(n) <= single_log2(n) <= log2(n) + 1,
        single_log2(n) <= single_log2(m),
        single_log2(n) > log2(n) ==> 500_000 * (2 * pow2(log2(n)) - n) <= 2 * pow2(log2(n)),
        single_log2(pow2(k)) == k,
{
    log2_bounds(n);
    log2_bounds(m);
    assert(pow2(log2(n) + 1) == 2 * pow2(log2(n)));
    assert(pow2(log2(m) + 1) == 2 * pow2(log2(m)));
    if log2(n) > log2(m) {
        lemma_pow2_grows(log2(m) + 1, log2(n));
    }
    lemma_log2_of_pow2(k);
    lemma_pow2_grows(0, k);
}

proof fn lemma_log2_of_pow2(k: nat)
    ensures
        log2(pow2(k)) == k,
    decreases k,
{
    if k > 0 {
        lemma_log2_of_pow2((k - 1) as nat);
        lemma_pow2_grows(0, (k - 1) as nat);
        assert(pow2(k) / 2 == pow2((k - 1) as nat));
    }
}

/// A power of two is a product of as many twos.
pub proof fn powers_double(n: nat)
    ensures
        pow2(0) == 1,
        pow2(n + 1) == 2 * pow2(n),
{
}

} // verus!
