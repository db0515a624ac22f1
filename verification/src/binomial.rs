//! Binomial coefficients and the recurrence by which the fifth stage walks
//! along a row of Pascal's triangle.

use vstd::arithmetic::div_mod::{
    lemma_fundamental_div_mod, lemma_mod_multiples_basic, lemma_small_mod,
};
use vstd::prelude::*;

use crate::number_theory::{
    divides, lemma_divides_quotient, lemma_euclid, lemma_multiple_divides, prime,
};

verus! {

/// The binomial coefficient `C(n, k)`: the number of `k`-element subsets of
/// an `n`-element set, by Pascal's rule.
pub open spec fn binomial(n: nat, k: nat) -> nat
    decreases n,
{
    if k == 0 {
        1
    } else if n == 0 {
        0
    } else {
        binomial((n - 1) as nat, (k - 1) as nat) + binomial((n - 1) as nat, k)
    }
}

/// `C(n, k)` is zero for `k > n`.
pub proof fn lemma_binomial_above(n: nat, k: nat)
    requires
        k > n,
    ensures
        binomial(n, k) == 0,
    decreases n,
{
    if n > 0 {
        lemma_binomial_above((n - 1) as nat, (k - 1) as nat);
        lemma_binomial_above((n - 1) as nat, k);
    }
}

/// Neighbours in a row: `(k + 1) * C(n, k + 1) == (n - k) * C(n, k)`.
pub proof fn lemma_binomial_step(n: nat, k: nat)
    requires
        k <= n,
    ensures
        (k + 1) * binomial(n, k + 1) == (n - k) * binomial(n, k),
    decreases n,
{
    if n == 0 {
        assert(binomial(0, 1) == 0);
        assert((k + 1) * 0 == (n - k) * 1) by (nonlinear_arith)
            requires
                n == 0,
                k == 0,
        ;
    } else {
        let m: nat = (n - 1) as nat;
        if k == 0 {
            lemma_binomial_step(m, 0);
            let first = binomial(m, 1);
            assert(binomial(n, 1) == binomial(m, 0) + first);
            assert((k + 1) * (1 + first) == (n - k) * 1) by (nonlinear_arith)
                requires
                    (0 + 1) * first == (m - 0) * 1,
                    k == 0,
                    m == n - 1,
            ;
        } else {
            let j: nat = (k - 1) as nat;
            let below = binomial(m, j);
            let here = binomial(m, k);
            let above = binomial(m, k + 1);
            assert(binomial(n, k + 1) == here + above);
            assert(binomial(n, k) == below + here);
            lemma_binomial_step(m, j);
            if k <= m {
                lemma_binomial_step(m, k);
            } else {
                lemma_binomial_above(m, k);
                lemma_binomial_above(m, k + 1);
                assert((k + 1) * above == (m - k) * here) by (nonlinear_arith)
                    requires
                        above == 0,
                        here == 0,
                ;
            }
            assert((k + 1) * (here + above) == (n - k) * (below + here)) by (nonlinear_arith)
                requires
                    (j + 1) * here == (m - j) * below,
                    (k + 1) * above == (m - k) * here,
                    j == k - 1,
                    m == n - 1,
            ;
        }
    }
}

/// Absorption: `k * C(n, k) == n * C(n - 1, k - 1)`.
pub proof fn lemma_binomial_absorption(n: nat, k: nat)
    requires
        n >= 1,
        k >= 1,
    ensures
        k * binomial(n, k) == n * binomial((n - 1) as nat, (k - 1) as nat),
    decreases n,
{
    let m: nat = (n - 1) as nat;
    let j: nat = (k - 1) as nat;
    let left = binomial(m, j);
    let right = binomial(m, k);
    assert(binomial(n, k) == left + right);
    if m == 0 {
        lemma_binomial_above(0, k);
        if k > 1 {
            lemma_binomial_above(0, j);
        }
        assert(k * (left + 0) == n * left) by (nonlinear_arith)
            requires
                n == 1,
                k == 1 || left == 0,
        ;
    } else {
        let l: nat = (m - 1) as nat;
        lemma_binomial_absorption(m, k);
        if j == 0 {
            assert(k * (left + right) == n * left) by (nonlinear_arith)
                requires
                    k * right == m * binomial(l, j),
                    binomial(l, j) == 1,
                    left == 1,
                    k == 1,
                    n == m + 1,
            ;
        } else {
            let i: nat = (j - 1) as nat;
            lemma_binomial_absorption(m, j);
            assert(left == binomial(l, i) + binomial(l, j));
            assert(k * (left + right) == n * left) by (nonlinear_arith)
                requires
                    k * right == m * binomial(l, j),
                    j * left == m * binomial(l, i),
                    left == binomial(l, i) + binomial(l, j),
                    k == j + 1,
                    n == m + 1,
            ;
        }
    }
}

/// The difference of two multiples of `p` is a multiple of `p`.
proof fn lemma_difference_of_multiples(x: int, y: int, p: int)
    requires
        p > 0,
        x % p == 0,
        y % p == 0,
    ensures
        (x - y) % p == 0,
{
    lemma_fundamental_div_mod(x, p);
    lemma_fundamental_div_mod(y, p);
    let u = x / p;
    let v = y / p;
    assert(x - y == (u - v) * p) by (nonlinear_arith)
        requires
            x == p * u,
            y == p * v,
    ;
    lemma_mod_multiples_basic(u - v, p);
}

/// A prime `n` divides every `C(n, i)` with `0 < i < n`.
pub proof fn lemma_prime_divides_binomial(n: nat, i: nat)
    requires
        prime(n),
        1 <= i < n,
    ensures
        binomial(n, i) % n == 0,
{
    lemma_binomial_absorption(n, i);
    lemma_multiple_divides(n, binomial((n - 1) as nat, (i - 1) as nat));
    lemma_euclid(n, i, binomial(n, i));
    lemma_small_mod(i, n);
}

/// A prime factor `p` of `n` divides every `C(n, j)` with `0 < j < p`.
pub proof fn lemma_prime_factor_divides_binomial(n: nat, p: nat, j: nat)
    requires
        prime(p),
        divides(p, n),
        n >= 1,
        1 <= j < p,
    ensures
        divides(p, binomial(n, j)),
{
    let inner = binomial((n - 1) as nat, (j - 1) as nat);
    lemma_binomial_absorption(n, j);
    lemma_divides_quotient(p, n);
    let q: nat = (n / p) as nat;
    assert(n * inner == p * (q * inner)) by (nonlinear_arith)
        requires
            n == p * q,
    ;
    lemma_multiple_divides(p, q * inner);
    lemma_euclid(p, j, binomial(n, j));
    lemma_small_mod(j, p);
}

/// Where the prime `p` divides `n`, the row above `n` alternates modulo `p`:
/// `C(n - 1, j)` is congruent to 1 for even `j < p` and to -1 for odd `j < p`.
pub proof fn lemma_row_above_alternates(n: nat, p: nat, j: nat)
    requires
        prime(p),
        divides(p, n),
        n >= 1,
        j < p,
    ensures
        j % 2 == 0 ==> (binomial((n - 1) as nat, j) as int - 1) % (p as int) == 0,
        j % 2 == 1 ==> (binomial((n - 1) as nat, j) as int + 1) % (p as int) == 0,
    decreases j,
{
    let m: nat = (n - 1) as nat;
    if j == 0 {
        assert(binomial(m, 0) - 1 == 0);
    } else {
        let i: nat = (j - 1) as nat;
        lemma_row_above_alternates(n, p, i);
        lemma_prime_factor_divides_binomial(n, p, j);
        let whole = binomial(n, j) as int;
        let before = binomial(m, i) as int;
        assert(whole == before + binomial(m, j));
        if j % 2 == 0 {
            lemma_difference_of_multiples(whole, before + 1, p as int);
        } else {
            lemma_difference_of_multiples(whole, before - 1, p as int);
        }
    }
}

/// A number does not divide `C(n, p)` where `p` is one of its prime factors.
pub proof fn lemma_prime_factor_binomial(n: nat, p: nat)
    requires
        prime(p),
        divides(p, n),
        n >= 1,
    ensures
        binomial(n, p) % n != 0,
{
    let m: nat = (n - 1) as nat;
    let j: nat = (p - 1) as nat;
    let inner = binomial(m, j);
    lemma_row_above_alternates(n, p, j);
    lemma_small_mod(1, p);
    if inner % p == 0 {
        if j % 2 == 0 {
            lemma_difference_of_multiples(inner as int, inner as int - 1, p as int);
        } else {
            lemma_difference_of_multiples(inner as int + 1, inner as int, p as int);
        }
        assert(false);
    }
    if binomial(n, p) % n == 0 {
        lemma_binomial_absorption(n, p);
        lemma_fundamental_div_mod(binomial(n, p) as int, n as int);
        let t: nat = (binomial(n, p) / n) as nat;
        assert(inner == p * t) by (nonlinear_arith)
            requires
                p * binomial(n, p) == n * inner,
                binomial(n, p) == n * t,
                n >= 1,
        ;
        lemma_multiple_divides(p, t);
        assert(false);
    }
}

} // verus!
