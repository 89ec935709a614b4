//! Integer sample programs: factorial and squaring.

use vstd::prelude::*;

verus! {

/// The factorial of `n` as a mathematical integer.
pub open spec fn factorial(n: nat) -> nat
    decreases n,
{
    if n == 0 {
        1
    } else {
        n * factorial((n - 1) as nat)
    }
}

/// The largest argument whose factorial fits a 64-bit signed integer.
pub const FACT_MAX_ARG: i64 = 20;

/// Factorials grow with their argument.
pub proof fn lemma_factorial_monotonic(i: nat, j: nat)
    requires
        i <= j,
    ensures
        1 <= factorial(i) <= factorial(j),
    decreases j,
{
    if j == 0 {
    } else if i == j {
        if i > 0 {
            lemma_factorial_monotonic((i - 1) as nat, (i - 1) as nat);
            assert(factorial(i) >= 1) by (nonlinear_arith)
                requires
                    factorial(i) == i * factorial((i - 1) as nat),
                    i >= 1,
                    factorial((i - 1) as nat) >= 1,
            ;
        }
    } else {
        lemma_factorial_monotonic(i, (j - 1) as nat);
        assert(factorial(j) >= factorial((j - 1) as nat)) by (nonlinear_arith)
            requires
                factorial(j) == j * factorial((j - 1) as nat),
                j >= 1,
                factorial((j - 1) as nat) >= 1,
        ;
    }
}

/// The factorial of twenty, the last one below 2^63.
pub proof fn lemma_factorial_twenty()
    ensures
        factorial(20) == 2432902008176640000,
{
    reveal_with_fuel(factorial, 6);
    assert(factorial(5) == 120);
    assert(factorial(10) == 3628800);
    assert(factorial(15) == 1307674368000);
    assert(factorial(20) == 2432902008176640000);
}

/// `fact(x)` is the product `1 * 2 * ... * x`, and 1 for `x == 0`.
///
/// A negative argument has no factorial, and one above [`FACT_MAX_ARG`] has
/// none that fits the integer type.
pub fn fact(x: i64) -> (r: i64)
    requires
        0 <= x <= FACT_MAX_ARG,
    ensures
        r == factorial(x as nat),
    decreases x,
{
    if x == 0 {
        1
    } else {
        let rest: i64 = fact(x - 1);
        proof {
            lemma_factorial_monotonic(x as nat, 20);
            lemma_factorial_twenty();
            assert(x * rest == factorial(x as nat));
        }
        x * rest
    }
}

/// `square(x)` is `x * x`; the argument's square must fit the integer type.
pub fn square(x: i64) -> (r: i64)
    requires
        x * x <= i64::MAX,
    ensures
        r == x * x,
{
    assert(0 <= x * x) by (nonlinear_arith);
    x * x
}

/// `square_short(x)` is `x * x`, as `square` is.
pub fn square_short(x: i64) -> (r: i64)
    requires
        x * x <= i64::MAX,
    ensures
        r == x * x,
{
    assert(0 <= x * x) by (nonlinear_arith);
    let r: i64 = x * x;
    r
}

} // verus!
