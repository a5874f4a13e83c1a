use vstd::prelude::*;
use crate::data::Data;

verus! {

/// The Fibonacci-shaped numbers: 1 below 2, then the sum of the two before.
pub open spec fn fibo_of(n: int) -> int
    decreases n,
{
    if n < 2 {
        1
    } else {
        fibo_of(n - 1) + fibo_of(n - 2)
    }
}

/// How many operations the engine invokes for `fibo_of(n)` on the graph that
/// computes it by a comparison, a choice, two subtractions and an addition:
/// 2 below 2, then 5 more than the two before together.
pub open spec fn fibo_ops_of(n: int) -> int
    decreases n,
{
    if n < 2 {
        2
    } else {
        fibo_ops_of(n - 1) + fibo_ops_of(n - 2) + 5
    }
}

/// Both sequences are positive.
pub proof fn lemma_fibo_positive(n: int)
    ensures
        fibo_of(n) >= 1,
        fibo_ops_of(n) >= 2,
    decreases n,
{
    if n >= 2 {
        lemma_fibo_positive(n - 1);
        lemma_fibo_positive(n - 2);
    }
}

/// `fibo_of(n)`, computed by plain recursion.
pub fn fibo(n: Data) -> (r: Data)
    requires
        fibo_of(n as int) <= i64::MAX,
    ensures
        r == fibo_of(n as int),
    decreases n,
{
    if n < 2 {
        return 1;
    }
    proof {
        lemma_fibo_positive(n - 1);
        lemma_fibo_positive(n - 2);
    }
    fibo(n - 1) + fibo(n - 2)
}

/// `fibo_ops_of(n)`, computed by plain recursion.
pub fn fibo_ops(n: Data) -> (r: usize)
    requires
        fibo_ops_of(n as int) <= usize::MAX,
    ensures
        r == fibo_ops_of(n as int),
    decreases n,
{
    if n < 2 {
        return 2;
    }
    proof {
        lemma_fibo_positive(n - 1);
        lemma_fibo_positive(n - 2);
    }
    fibo_ops(n - 1) + fibo_ops(n - 2) + 5
}

} // verus!
