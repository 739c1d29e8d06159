//! The factorial function.
use vstd::prelude::*;

verus! {

/// `n!`, with `0! == 1`.
pub open spec fn factorial_of(n: nat) -> nat
    decreases n,
{
    if n <= 1 {
        1
    } else {
        n * factorial_of((n - 1) as nat)
    }
}

/// Factorials are positive.
proof fn lemma_factorial_positive(n: nat)
    ensures
        factorial_of(n) >= 1,
    decreases n,
{
    if n > 1 {
        lemma_factorial_positive((n - 1) as nat);
        assert(n * factorial_of((n - 1) as nat) >= factorial_of((n - 1) as nat)) by (nonlinear_arith)
            requires
                n > 1,
                factorial_of((n - 1) as nat) >= 1,
        ;
    }
}

/// Computes `n!` recursively.
pub fn factorial(n: usize) -> (result: usize)
    requires
        factorial_of(n as nat) <= usize::MAX,
    ensures
        result == factorial_of(n as nat),
    decreases n,
{
    if n <= 1 {
        return 1;
    }
    proof {
        lemma_factorial_positive((n - 1) as nat);
        assert(n * factorial_of((n - 1) as nat) >= factorial_of((n - 1) as nat)) by (nonlinear_arith)
            requires
                n > 1,
                factorial_of((n - 1) as nat) >= 1,
        ;
    }
    n * factorial(n - 1)
}

} // verus!
