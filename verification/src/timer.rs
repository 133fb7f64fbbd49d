//! The time base: ticks of the timer as seconds and fractions of a second.

use vstd::prelude::*;

verus! {

/// Ticks of the timer per second.
pub const TIMEBASE_HZ: u64 = 10_000_000;

/// Number of decimal digits of the largest fraction of a second, in ticks.
pub const TIMEBASE_DECIMALS: usize = 7;

/// Number of decimal digits of `n`.
pub open spec fn spec_digits(n: nat) -> nat
    decreases n,
{
    if n < 10 {
        1
    } else {
        1 + spec_digits(n / 10)
    }
}

/// Counts the decimal digits of `n`.
pub fn digits_u64(n: u64) -> (digits: usize)
    ensures
        digits == spec_digits(n as nat),
        1 <= digits <= 20,
{
    let mut rest = n;
    let mut digits: usize = 1;
    proof {
        lemma_digits_bound(n as nat);
    }
    while rest >= 10
        invariant
            1 <= digits,
            digits + spec_digits(rest as nat) == spec_digits(n as nat) + 1,
            spec_digits(n as nat) <= 20,
        decreases rest,
    {
        rest = rest / 10;
        digits += 1;
    }
    digits
}

/// A 64-bit number has at most twenty decimal digits, and a number below 10^7
/// at most seven.
pub proof fn lemma_digits_bound(n: nat)
    ensures
        spec_digits(n) >= 1,
        n <= u64::MAX ==> spec_digits(n) <= 20,
        n < 10_000_000 ==> spec_digits(n) <= 7,
        n == 9_999_999 ==> spec_digits(n) == 7,
{
    reveal_with_fuel(spec_digits, 21);
}

/// The whole seconds in `ticks` ticks of the timer.
pub fn read_time_seconds(ticks: u64) -> (secs: u64)
    ensures
        secs == ticks / TIMEBASE_HZ,
{
    ticks / TIMEBASE_HZ
}

/// The whole seconds in `ticks` ticks of the timer, and the ticks beyond them.
pub fn read_time_parts(ticks: u64) -> (parts: (u64, u64))
    ensures
        parts.0 == ticks / TIMEBASE_HZ,
        parts.1 == ticks % TIMEBASE_HZ,
        parts.0 * TIMEBASE_HZ + parts.1 == ticks,
        parts.1 < TIMEBASE_HZ,
{
    (ticks / TIMEBASE_HZ, ticks % TIMEBASE_HZ)
}

} // verus!
