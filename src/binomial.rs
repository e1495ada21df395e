use vstd::arithmetic::power2::{lemma2_to64_rest, lemma_pow2_strictly_increases, lemma_pow2_unfold, pow2};
use vstd::prelude::*;

verus! {

/// The largest degree the coefficient computers accept: up to it every binomial
/// coefficient C(n, k) is at most 2^n and so fits in 64 bits.
pub const MAX_DEGREE: usize = 63;

/// C(n, k) by Pascal's triangle; zero for k > n.
pub open spec fn binomial(n: nat, k: nat) -> nat
    decreases n,
{
    if k == 0 {
        1
    } else if n == 0 {
        0
    } else {
        binomial((n - 1) as nat, (k - 1) as nat) + binomial((n - 1) as nat, k)
    }
}

/// C(n, k) by the multiplicative step C(n, k + 1) = C(n, k) * (n - k) / (k + 1).
pub open spec fn binomial_by_steps(n: nat, k: nat) -> nat
    decreases k,
{
    if k == 0 {
        1
    } else {
        ((binomial_by_steps(n, (k - 1) as nat) * (n - (k - 1)) as nat) as int / k as int) as nat
    }
}

pub proof fn lemma_binomial_above(n: nat, k: nat)
    requires
        k > n,
    ensures
        binomial(n, k) == 0,
    decreases n,
{
    if n > 0 {
        lemma_binomial_above((n - 1) as nat, (k - 1) as nat);
        lemma_binomial_above((n - 1) as nat, k);
    }
}

pub proof fn lemma_binomial_diagonal(n: nat)
    ensures
        binomial(n, n) == 1,
    decreases n,
{
    if n > 0 {
        lemma_binomial_diagonal((n - 1) as nat);
        lemma_binomial_above((n - 1) as nat, n);
    }
}

/// Each row of the triangle reads the same from both ends: C(n, k) == C(n, n - k).
pub proof fn lemma_binomial_symmetric(n: nat, k: nat)
    requires
        k <= n,
    ensures
        binomial(n, k) == binomial(n, (n - k) as nat),
    decreases n,
{
    if k == 0 {
        lemma_binomial_diagonal(n);
    } else if k == n {
        lemma_binomial_diagonal(n);
    } else {
        lemma_binomial_symmetric((n - 1) as nat, (k - 1) as nat);
        lemma_binomial_symmetric((n - 1) as nat, k);
        assert(binomial(n, (n - k) as nat) == binomial((n - 1) as nat, (n - k - 1) as nat)
            + binomial((n - 1) as nat, (n - k) as nat));
    }
}

/// Pascal's rule for every 1 <= k <= n - 1.
pub proof fn lemma_binomial_pascal(n: nat, k: nat)
    requires
        1 <= k,
        k + 1 <= n,
    ensures
        binomial(n, k) == binomial((n - 1) as nat, (k - 1) as nat) + binomial((n - 1) as nat, k),
{
}

/// Every coefficient of row n is at most 2^n.
pub proof fn lemma_binomial_bound(n: nat, k: nat)
    ensures
        binomial(n, k) <= pow2(n),
    decreases n,
{
    if n > 0 {
        lemma_binomial_bound((n - 1) as nat, k);
        if k > 0 {
            lemma_binomial_bound((n - 1) as nat, (k - 1) as nat);
        }
        lemma_pow2_unfold(n);
    } else {
        assert(pow2(0) == 1) by {
            vstd::arithmetic::power2::lemma2_to64();
        }
    }
}

/// Up to `MAX_DEGREE` every coefficient fits in 63 bits.
pub proof fn lemma_binomial_fits(n: nat, k: nat)
    requires
        n <= MAX_DEGREE,
    ensures
        binomial(n, k) <= pow2(63),
        pow2(63) == 0x8000000000000000,
{
    lemma_binomial_bound(n, k);
    if n < 63 {
        lemma_pow2_strictly_increases(n, 63);
    }
    lemma2_to64_rest();
}

/// (k + 1) * C(n, k + 1) == n * C(n - 1, k).
proof fn lemma_binomial_absorb(n: nat, k: nat)
    requires
        n >= 1,
    ensures
        (k + 1) * binomial(n, k + 1) == n * binomial((n - 1) as nat, k),
    decreases n,
{
    let a = binomial((n - 1) as nat, k);
    let b = binomial((n - 1) as nat, k + 1);
    assert(binomial(n, k + 1) == a + b);
    if n == 1 {
        lemma_binomial_above(0, k + 1);
        assert(b == 0);
        if k > 0 {
            lemma_binomial_above(0, k);
        }
        assert((k + 1) * binomial(n, k + 1) == n * a) by (nonlinear_arith)
            requires
                n == 1,
                binomial(n, k + 1) == a + b,
                b == 0,
                k > 0 ==> a == 0,
                k == 0 ==> a == 1,
        ;
    } else {
        let c = binomial((n - 2) as nat, k);
        lemma_binomial_absorb((n - 1) as nat, k);
        assert((k + 1) * b == (n - 1) * c);
        if k == 0 {
            assert(a == 1);
            assert(binomial((n - 1) as nat, 0) == 1);
            assert(c == 1);
            assert((k + 1) * binomial(n, k + 1) == n * a) by (nonlinear_arith)
                requires
                    k == 0,
                    a == 1,
                    c == 1,
                    binomial(n, k + 1) == a + b,
                    (k + 1) * b == (n - 1) * c,
            ;
        } else {
            let d = binomial((n - 2) as nat, (k - 1) as nat);
            lemma_binomial_absorb((n - 1) as nat, (k - 1) as nat);
            assert(k * a == (n - 1) * d);
            assert(a == d + c);
            assert((k + 1) * binomial(n, k + 1) == n * a) by (nonlinear_arith)
                requires
                    binomial(n, k + 1) == a + b,
                    (k + 1) * b == (n - 1) * c,
                    k * a == (n - 1) * d,
                    a == d + c,
            ;
        }
    }
}

/// The multiplicative step: (k + 1) * C(n, k + 1) == (n - k) * C(n, k).
pub proof fn lemma_binomial_step(n: nat, k: nat)
    requires
        k <= n,
    ensures
        (k + 1) * binomial(n, k + 1) == (n - k) * binomial(n, k),
{
    if n == 0 {
        lemma_binomial_above(0, 1);
    } else if k == 0 {
        lemma_binomial_absorb(n, 0);
        assert(binomial((n - 1) as nat, 0) == 1);
        assert(binomial(n, 0) == 1);
        assert((0 + 1) * binomial(n, 0 + 1) == (n - 0) * binomial(n, 0)) by (nonlinear_arith)
            requires
                1 * binomial(n, 1) == n * 1,
                binomial(n, 0) == 1,
        ;
    } else {
        lemma_binomial_absorb(n, k);
        lemma_binomial_absorb(n, (k - 1) as nat);
        let a = binomial((n - 1) as nat, (k - 1) as nat);
        let b = binomial((n - 1) as nat, k);
        assert(binomial(n, k) == a + b);
        assert(k * binomial(n, k) == n * a);
        assert((k + 1) * binomial(n, k + 1) == n * b);
        assert((n - k) * binomial(n, k) == n * b) by (nonlinear_arith)
            requires
                k * binomial(n, k) == n * a,
                binomial(n, k) == a + b,
                k <= n,
        ;
    }
}

/// The step divides exactly: C(n, k) * (n - k) / (k + 1) == C(n, k + 1).
pub proof fn lemma_binomial_step_div(n: nat, k: nat)
    requires
        k <= n,
    ensures
        (binomial(n, k) * (n - k)) as int / (k + 1) as int == binomial(n, k + 1),
{
    lemma_binomial_step(n, k);
    let c = binomial(n, k + 1) as int;
    assert(binomial(n, k) * (n - k) == (k + 1) * c) by (nonlinear_arith)
        requires
            (k + 1) * binomial(n, k + 1) == (n - k) * binomial(n, k),
            c == binomial(n, k + 1),
    ;
    vstd::arithmetic::div_mod::lemma_div_multiples_vanish(c, (k + 1) as int);
}

/// The multiplicative formula and Pascal's triangle give the same coefficients.
pub proof fn lemma_binomial_by_steps(n: nat, k: nat)
    ensures
        binomial_by_steps(n, k) == binomial(n, k),
    decreases k,
{
    if k > 0 {
        let j = (k - 1) as nat;
        lemma_binomial_by_steps(n, j);
        if j <= n {
            lemma_binomial_step_div(n, j);
        } else {
            lemma_binomial_above(n, j);
            lemma_binomial_above(n, k);
            assert((0 * (n - j) as nat) as int / k as int == 0) by (nonlinear_arith)
                requires
                    k > 0,
            ;
        }
    }
}

} // verus!
