//! The balance criterion of the rope.
//!
//! A tree of depth `d` counts as balanced when it holds at least
//! `fib(d + 2) - 1` bytes, and so does each of its subtrees. A rope that is
//! balanced in this sense has a depth logarithmic in its length.

use vstd::prelude::*;

verus! {

/// The Fibonacci numbers: 0, 1, 1, 2, 3, 5, ...
pub open spec fn fib(n: nat) -> nat
    decreases n,
{
    if n == 0 {
        0
    } else if n == 1 {
        1
    } else {
        fib((n - 1) as nat) + fib((n - 2) as nat)
    }
}

/// Two to the power `n`.
pub open spec fn pow2(n: nat) -> nat
    decreases n,
{
    if n == 0 {
        1
    } else {
        2 * pow2((n - 1) as nat)
    }
}

/// True when `len` bytes are enough for a tree of depth `depth`.
pub open spec fn fib_balanced(depth: nat, len: nat) -> bool {
    len + 1 >= fib(depth + 2)
}

/// A later Fibonacci number is no smaller.
pub proof fn lemma_fib_monotone(i: nat, j: nat)
    requires
        i <= j,
    ensures
        fib(i) <= fib(j),
    decreases j,
{
    if i < j {
        lemma_fib_monotone(i, (j - 1) as nat);
    }
}

/// The Fibonacci numbers grow more slowly than the powers of two.
pub proof fn lemma_fib_pow2(k: nat)
    ensures
        fib(k + 3) <= pow2(k) + 2,
    decreases k,
{
    reveal_with_fuel(fib, 6);
    reveal_with_fuel(pow2, 3);
    if k >= 3 {
        lemma_fib_pow2((k - 1) as nat);
        lemma_fib_pow2((k - 2) as nat);
        lemma_pow2_positive((k - 3) as nat);
    }
}

/// A power of two is at least one.
pub proof fn lemma_pow2_positive(n: nat)
    ensures
        pow2(n) >= 1,
    decreases n,
{
    if n > 0 {
        lemma_pow2_positive((n - 1) as nat);
    }
}

/// Tells whether `len` bytes are enough for a tree of depth `depth`.
pub fn is_fib_balanced(depth: usize, len: usize) -> (ok: bool)
    ensures
        ok == fib_balanced(depth as nat, len as nat),
{
    let bound: u128 = len as u128 + 1;
    let target: u128 = depth as u128 + 2;
    let mut low: u128 = 0;
    let mut high: u128 = 1;
    let mut i: u128 = 0;
    while i < target && low <= bound
        invariant
            i <= target,
            low == fib(i as nat),
            high == fib((i + 1) as nat),
            low <= high <= 2 * low + 1,
            bound <= 0x1_0000_0000_0000_0000,
            target <= 0x1_0000_0000_0000_0001,
        decreases target - i,
    {
        let next: u128 = low + high;
        low = high;
        high = next;
        i = i + 1;
    }
    proof {
        lemma_fib_monotone(i as nat, target as nat);
    }
    low <= bound
}

} // verus!
