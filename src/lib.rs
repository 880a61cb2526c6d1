//! Divisibility tests for the numbers 0 through 12, decided by digit
//! manipulation (digit sums, alternating digit sums, last digits and
//! reductions that shrink the number) rather than by taking a remainder.

pub mod utils;

pub use utils::{alternating_digit_sum, digit_sum, last_digit};

use vstd::prelude::*;

verus! {

use vstd::arithmetic::div_mod::lemma_fundamental_div_mod_converse;

use crate::utils::{
    alternating_digit_sum_of,
    digit_sum_of,
    lemma_alternating_digit_sum_mod_11,
    lemma_digit_sum_mod_9,
};

/// What `divisible_by_k(n)` answers for the divisor `k`: whether `n` is a
/// multiple of `k`. Nothing counts as divisible by zero.
pub open spec fn divisible_by(k: nat, n: nat) -> bool {
    k != 0 && n % k == 0
}

/// A multiple `k * n` of a divisor `k` from 1 to 12 is divisible by `k`.
pub proof fn lemma_multiples_are_divisible(k: u64, n: u64)
    requires
        1 <= k <= 12,
        k * n <= u64::MAX,
    ensures
        divisible_by(k as nat, (k * n) as nat),
{
    assert(k * n == n * k) by (nonlinear_arith);
    lemma_fundamental_div_mod_converse(k * n, k as int, n as int, 0);
}

/// A number `k * n + r` that lies `r` past a multiple of a divisor `k` from
/// 2 to 12, with `r` from 1 to `k - 1`, is not divisible by `k`.
pub proof fn lemma_offsets_are_not_divisible(k: u64, n: u64, r: u64)
    requires
        2 <= k <= 12,
        1 <= r < k,
        k * n + r <= u64::MAX,
    ensures
        !divisible_by(k as nat, (k * n + r) as nat),
{
    assert(k * n == n * k) by (nonlinear_arith);
    lemma_fundamental_div_mod_converse(k * n + r, k as int, n as int, r as int);
}

/// The composite rules agree with their parts: six divides exactly the
/// numbers that two and three both divide, and twelve exactly those that
/// three and four both divide.
pub proof fn lemma_composite_rules(n: u64)
    ensures
        divisible_by(6, n as nat) == (divisible_by(2, n as nat) && divisible_by(3, n as nat)),
        divisible_by(12, n as nat) == (divisible_by(3, n as nat) && divisible_by(4, n as nat)),
{
}

/// Determines whether `n` is divisible by zero: no number is, zero included.
pub fn divisible_by_0(n: u64) -> (r: bool)
    ensures
        r == divisible_by(0, n as nat),
        !r,
{
    false
}

/// Determines whether `n` is divisible by one: every number is.
pub fn divisible_by_1(n: u64) -> (r: bool)
    ensures
        r == divisible_by(1, n as nat),
        r,
{
    true
}

/// Determines whether `n` is divisible by two: its last digit is even.
pub fn divisible_by_2(n: u64) -> (r: bool)
    ensures
        r == divisible_by(2, n as nat),
{
    let d: u64 = last_digit(n);
    d == 0 || d == 2 || d == 4 || d == 6 || d == 8
}

/// Determines whether `n` is divisible by three: a number of two or more
/// digits is replaced by its digit sum until a single digit is left, which
/// must be 0, 3, 6 or 9.
pub fn divisible_by_3(n: u64) -> (r: bool)
    ensures
        r == divisible_by(3, n as nat),
{
    let mut m: u64 = n;
    while m >= 10
        invariant
            m % 3 == n % 3,
        decreases m,
    {
        proof {
            lemma_digit_sum_mod_9(m as nat);
        }
        m = digit_sum(m);
    }
    m == 0 || m == 3 || m == 6 || m == 9
}

/// Determines whether `n` is divisible by four: `n` is even, and so is `n`
/// shifted right by one bit.
pub fn divisible_by_4(n: u64) -> (r: bool)
    ensures
        r == divisible_by(4, n as nat),
{
    if divisible_by_2(n) {
        assert(n >> 1 == n / 2) by (bit_vector);
        divisible_by_2(n >> 1)
    } else {
        false
    }
}

/// Determines whether `n` is divisible by five: its last digit is 0 or 5.
pub fn divisible_by_5(n: u64) -> (r: bool)
    ensures
        r == divisible_by(5, n as nat),
{
    let d: u64 = last_digit(n);
    d == 0 || d == 5
}

/// Determines whether `n` is divisible by six: by two and by three.
pub fn divisible_by_6(n: u64) -> (r: bool)
    ensures
        r == divisible_by(6, n as nat),
{
    divisible_by_2(n) && divisible_by_3(n)
}

/// Determines whether `n` is divisible by seven: while `n` exceeds 50 it is
/// replaced by five times its last digit plus the number without its last
/// digit, and the rest must be 0 or one of 7, 14, 21, 28, 35, 42 and 49.
pub fn divisible_by_7(n: u64) -> (r: bool)
    ensures
        r == divisible_by(7, n as nat),
{
    let mut m: u64 = n;
    while m > 50
        invariant
            (m % 7 == 0) == (n % 7 == 0),
        decreases m,
    {
        let rest: u64 = m / 10;
        let next: u64 = last_digit(m) * 5 + rest;
        assert(5 * m == 49 * rest + next);
        m = next;
    }
    let ghost k = m / 7;
    assert(m % 7 == 0 ==> m == 7 * k && k <= 7);
    m == 0 || m == 7 || m == 14 || m == 21 || m == 28 || m == 35 || m == 42 || m == 49
}

/// Determines whether `n` is divisible by eight: `n` is even, and `n`
/// shifted right by one bit is divisible by four.
pub fn divisible_by_8(n: u64) -> (r: bool)
    ensures
        r == divisible_by(8, n as nat),
{
    if divisible_by_2(n) {
        assert(n >> 1 == n / 2) by (bit_vector);
        divisible_by_4(n >> 1)
    } else {
        false
    }
}

/// Determines whether `n` is divisible by nine: a number of two or more
/// digits is replaced by its digit sum until a single digit is left, which
/// must be 0 or 9.
pub fn divisible_by_9(n: u64) -> (r: bool)
    ensures
        r == divisible_by(9, n as nat),
{
    let mut m: u64 = n;
    while m >= 10
        invariant
            m % 9 == n % 9,
        decreases m,
    {
        proof {
            lemma_digit_sum_mod_9(m as nat);
        }
        m = digit_sum(m);
    }
    m == 0 || m == 9
}

/// Determines whether `n` is divisible by ten: its last digit is 0.
pub fn divisible_by_10(n: u64) -> (r: bool)
    ensures
        r == divisible_by(10, n as nat),
{
    last_digit(n) == 0
}

/// Determines whether `n` is divisible by eleven: from 11 upwards `n` is
/// replaced by the magnitude of its alternating digit sum, and what is left
/// below 11 must be 0.
pub fn divisible_by_11(n: u64) -> (r: bool)
    ensures
        r == divisible_by(11, n as nat),
{
    let mut m: u64 = n;
    while m >= 11
        invariant
            (m % 11 == 0) == (n % 11 == 0),
        decreases m,
    {
        proof {
            lemma_alternating_digit_sum_mod_11(m as nat);
        }
        let a: i64 = alternating_digit_sum(m);
        if a < 0 {
            m = (0 - a as i128) as u64;
        } else {
            m = a as u64;
        }
    }
    m == 0
}

/// Determines whether `n` is divisible by twelve: by three and by four.
pub fn divisible_by_12(n: u64) -> (r: bool)
    ensures
        r == divisible_by(12, n as nat),
{
    divisible_by_3(n) && divisible_by_4(n)
}

} // verus!
