use vstd::prelude::*;
use crate::common::is_power_of_two;

verus! {

/// `r` is the smallest power of two that is at least `n` (with `1` for `0`).
pub open spec fn is_smallest_power_of_two_at_least(r: nat, n: nat) -> bool {
    &&& is_power_of_two(r)
    &&& n <= r
    &&& r / 2 < n || r == 1
}

/// Transform length used for an input of `n` samples: the input is
/// zero-padded up to the next power of two.
pub fn next_pow2(n: usize) -> (r: usize)
    requires
        n <= usize::MAX / 2 + 1,
    ensures
        is_smallest_power_of_two_at_least(r as nat, n as nat),
{
    if n == 0 {
        return 1;
    }
    let mut p: usize = 1;
    while p < n
        invariant
            is_power_of_two(p as nat),
            p == 1 || p / 2 < n,
            0 < n <= usize::MAX / 2 + 1,
            p <= 2 * n,
        decreases 2 * n - p,
    {
        p = p * 2;
    }
    p
}

} // verus!
