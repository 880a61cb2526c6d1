//! Digit utilities over the decimal rendering of a `u64`.

use vstd::prelude::*;

verus! {

/// The decimal digits of `n`, most significant first; zero is written `0`.
pub open spec fn digits(n: nat) -> Seq<nat>
    decreases n,
{
    if n < 10 {
        seq![n]
    } else {
        digits(n / 10).push(n % 10)
    }
}

/// The sum of the entries of `s`.
pub open spec fn sum(s: Seq<nat>) -> int
    decreases s.len(),
{
    if s.len() == 0 {
        0
    } else {
        sum(s.drop_last()) + s.last()
    }
}

/// The sum of the decimal digits of `n`.
pub open spec fn digit_sum_of(n: nat) -> int {
    sum(digits(n))
}

/// A single digit is its own digit sum.
pub proof fn lemma_digit_sum_single(n: nat)
    requires
        n < 10,
    ensures
        digit_sum_of(n) == n,
{
    assert(digits(n).drop_last() =~= Seq::<nat>::empty());
    assert(sum(Seq::<nat>::empty()) == 0);
}

/// Peeling off the last digit: the digit sum of `n` is the digit sum of
/// `n / 10` plus `n % 10` (for `n < 10` the first part is the digit sum of 0).
pub proof fn lemma_digit_sum_step(n: nat)
    ensures
        digit_sum_of(n) == digit_sum_of(n / 10) + n % 10,
{
    if n >= 10 {
        assert(digits(n).drop_last() =~= digits(n / 10));
    } else {
        lemma_digit_sum_single(n);
        lemma_digit_sum_single(0);
    }
}

/// The digit sum never exceeds the number, and equals it only for a single
/// digit.
pub proof fn lemma_digit_sum_bound(n: nat)
    ensures
        0 <= digit_sum_of(n) <= n,
        (digit_sum_of(n) == n) == (n < 10),
    decreases n,
{
    lemma_digit_sum_step(n);
    if n >= 10 {
        lemma_digit_sum_bound(n / 10);
    } else {
        lemma_digit_sum_single(n);
    }
}

/// `n` and its digit sum leave the same remainder modulo 9, hence also
/// modulo 3.
pub proof fn lemma_digit_sum_mod_9(n: nat)
    ensures
        digit_sum_of(n) % 9 == n % 9,
        digit_sum_of(n) % 3 == n % 3,
    decreases n,
{
    lemma_digit_sum_step(n);
    lemma_digit_sum_bound(n);
    if n >= 10 {
        let q = n / 10;
        lemma_digit_sum_mod_9(q);
        lemma_digit_sum_bound(q);
        let j = (digit_sum_of(q) - q) / 9;
        assert(digit_sum_of(q) - q == 9 * j);
        assert(n - digit_sum_of(n) == 9 * (q - j));
    } else {
        lemma_digit_sum_single(n);
    }
}

/// `x` when `positive`, else `-x`.
pub open spec fn signed(positive: bool, x: int) -> int {
    if positive {
        x
    } else {
        -x
    }
}

/// The alternating sum `s[0] - s[1] + s[2] - ...` of `s`.
pub open spec fn alternating_sum(s: Seq<nat>) -> int
    decreases s.len(),
{
    if s.len() == 0 {
        0
    } else {
        alternating_sum(s.drop_last()) + signed((s.len() - 1) % 2 == 0, s.last() as int)
    }
}

/// The alternating sum of the decimal digits of `n`, with `+` on the most
/// significant digit.
pub open spec fn alternating_digit_sum_of(n: nat) -> int {
    alternating_sum(digits(n))
}

/// The alternating digit sum taken from the other end: `+` on the least
/// significant digit.
pub open spec fn alternating_sum_from_right(n: nat) -> int
    decreases n,
{
    if n < 10 {
        n as int
    } else {
        (n % 10) as int - alternating_sum_from_right(n / 10)
    }
}

/// Both ends agree when the number of digits is odd, and differ in sign
/// when it is even.
pub proof fn lemma_alternating_ends(n: nat)
    ensures
        alternating_digit_sum_of(n) == signed(
            digits(n).len() % 2 == 1,
            alternating_sum_from_right(n),
        ),
    decreases n,
{
    if n >= 10 {
        lemma_alternating_ends(n / 10);
        assert(digits(n).drop_last() =~= digits(n / 10));
    } else {
        assert(digits(n).drop_last() =~= Seq::<nat>::empty());
        assert(alternating_sum(Seq::<nat>::empty()) == 0);
    }
}

/// The alternating digit sum is at most `n` in magnitude, and strictly less
/// once `n` has two digits.
pub proof fn lemma_alternating_bound(n: nat)
    ensures
        -n <= alternating_sum_from_right(n) <= n,
        n >= 10 ==> -n < alternating_sum_from_right(n) < n,
    decreases n,
{
    if n >= 10 {
        lemma_alternating_bound(n / 10);
    }
}

/// `n` and its alternating digit sum from the right are congruent modulo 11.
pub proof fn lemma_alternating_mod_11(n: nat)
    ensures
        (n - alternating_sum_from_right(n)) % 11 == 0,
    decreases n,
{
    if n >= 10 {
        lemma_alternating_mod_11(n / 10);
        let q = n / 10;
        let k = (q - alternating_sum_from_right(q)) / 11;
        assert(q - alternating_sum_from_right(q) == 11 * k);
        assert(n - alternating_sum_from_right(n) == 11 * (q - k));
    }
}

/// The alternating digit sum of `n` is a multiple of 11 exactly when `n`
/// is, and it is smaller than `n` in magnitude once `n` has two digits.
pub proof fn lemma_alternating_digit_sum_mod_11(n: nat)
    ensures
        (alternating_digit_sum_of(n) % 11 == 0) == (n % 11 == 0),
        -n <= alternating_digit_sum_of(n) <= n,
        n >= 10 ==> -n < alternating_digit_sum_of(n) < n,
{
    lemma_alternating_ends(n);
    lemma_alternating_bound(n);
    lemma_alternating_mod_11(n);
    let a = alternating_sum_from_right(n);
    let k = (n - a) / 11;
    assert(n - a == 11 * k);
    assert((-a) % 11 == 0 <==> a % 11 == 0);
}

/// Returns the least significant decimal digit of `n`: the digit that the
/// decimal rendering of `n` ends with.
pub fn last_digit(n: u64) -> (r: u64)
    ensures
        r < 10,
        r == n % 10,
        r == digits(n as nat).last(),
{
    n % 10
}

/// Returns the alternating sum of the decimal digits of `n`, with `+` on the
/// most significant digit (`6468` gives `6 - 4 + 6 - 8`).
pub fn alternating_digit_sum(n: u64) -> (r: i64)
    ensures
        r == alternating_digit_sum_of(n as nat),
        -n <= r <= n,
{
    let mut m: u64 = n;
    let mut acc: i64 = 0;
    let mut positive: bool = true;
    // `acc` holds the digits taken so far from the right, with alternating
    // signs; `positive` is the sign the next digit gets. The magnitude of
    // `acc`, plus one, times what is left of `n` stays within `n`, which
    // keeps `acc` far inside the range of `i64`.
    assert(signed(acc >= 0, acc as int) + 1 == 1);
    assert(1 * m == m);
    while m >= 10
        invariant
            m <= n,
            alternating_sum_from_right(n as nat) == acc + signed(
                positive,
                alternating_sum_from_right(m as nat),
            ),
            positive == (digits(n as nat).len() % 2 == digits(m as nat).len() % 2),
            (signed(acc >= 0, acc as int) + 1) * m <= n,
            -0x4000_0000_0000_0000 <= acc <= 0x4000_0000_0000_0000,
        decreases m,
    {
        let ghost a: int = signed(acc >= 0, acc as int);
        let next: u64 = m / 10;
        assert(a + 1 < 0x2000_0000_0000_0000 && (a + 10) * next <= n) by (nonlinear_arith)
            requires
                a >= 0,
                (a + 1) * m <= n,
                m >= 10,
                n <= 0xffff_ffff_ffff_ffff,
                next == m / 10,
        ;
        let d: i64 = (m % 10) as i64;
        if positive {
            acc = acc + d;
        } else {
            acc = acc - d;
        }
        assert((signed(acc >= 0, acc as int) + 1) * next <= n) by (nonlinear_arith)
            requires
                signed(acc >= 0, acc as int) <= a + 9,
                (a + 10) * next <= n,
                signed(acc >= 0, acc as int) >= 0,
        ;
        m = next;
        positive = !positive;
    }
    if positive {
        acc = acc + m as i64;
    } else {
        acc = acc - m as i64;
    }
    proof {
        lemma_alternating_ends(n as nat);
        lemma_alternating_bound(n as nat);
    }
    if positive {
        acc
    } else {
        -acc
    }
}

/// Returns the sum of the decimal digits of `n` (0 for 0).
pub fn digit_sum(n: u64) -> (r: u64)
    ensures
        r == digit_sum_of(n as nat),
        r <= n,
        (r == n) == (n < 10),
{
    let mut m: u64 = n;
    let mut acc: u64 = 0;
    proof {
        lemma_digit_sum_single(0);
    }
    while m > 0
        invariant
            acc + m <= n,
            digit_sum_of(n as nat) == acc + digit_sum_of(m as nat),
            digit_sum_of(0) == 0,
        decreases m,
    {
        proof {
            lemma_digit_sum_step(m as nat);
        }
        acc = acc + m % 10;
        m = m / 10;
    }
    proof {
        lemma_digit_sum_bound(n as nat);
    }
    acc
}

} // verus!
