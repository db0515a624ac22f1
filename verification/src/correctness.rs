//! Why the verdict of the pipeline is right: each stage that rejects does so
//! only for composite numbers, each stage that accepts does so only for
//! primes, and so the pipeline answers exactly whether its candidate is prime.

use vstd::arithmetic::div_mod::{lemma_mod_self_0, lemma_small_mod};
use vstd::arithmetic::power::{
    lemma0_pow, lemma1_pow, lemma_pow0, lemma_pow_positive, lemma_pow_strictly_increases, pow,
};
use vstd::arithmetic::power2::{lemma_pow2, lemma_pow2_strictly_increases, pow2};
use vstd::prelude::*;

use crate::binomial::{binomial, lemma_prime_divides_binomial, lemma_prime_factor_binomial};
use crate::number_theory::{
    divides, floor_log2, gcd, is_gcd, least_prime_factor, lemma_coprime_cancels,
    lemma_divides_quotient, lemma_floor_log2_bounds, lemma_gcd_is_gcd, lemma_gcd_unique,
    lemma_least_prime_factor, lemma_multiple_divides, prime,
};
use crate::primality_check::{
    has_exact_root, least_modulus_with_order_above, max_exponent, max_modulus, order_above,
    order_witness, pipeline_verdict, stage1_rejects, stage3_rejects, stage5_rejects,
    trivial_residue,
};

verus! {

/// `r` is what the second stage looks for: it lies in
/// `[2, max_modulus(n)]`, no smaller modulus from 2 on has an order above
/// `max_exponent(n)`, and `r` itself has one unless it is the fallback
/// `max_modulus(n)`.
pub open spec fn is_order_witness(n: nat, r: nat) -> bool {
    &&& 2 <= r <= max_modulus(n)
    &&& forall|s: nat| 2 <= s < r ==> !#[trigger] order_above(n, s, max_exponent(n))
    &&& r < max_modulus(n) ==> order_above(n, r, max_exponent(n))
}

/// The search from `from` returns the first modulus with an order above
/// `bound`, or `limit` where it finds none.
proof fn lemma_least_modulus(n: nat, bound: nat, from: nat, limit: nat)
    requires
        from <= limit,
    ensures
        ({
            let r = least_modulus_with_order_above(n, bound, from, limit);
            &&& from <= r <= limit
            &&& forall|s: nat| from <= s < r ==> !#[trigger] order_above(n, s, bound)
            &&& r < limit ==> order_above(n, r, bound)
        }),
    decreases limit - from,
{
    if from < limit && !order_above(n, from, bound) {
        lemma_least_modulus(n, bound, from + 1, limit);
    }
}

/// The order witness is the smallest modulus that meets the order condition.
pub proof fn lemma_order_witness_is_least(n: nat)
    ensures
        is_order_witness(n, order_witness(n)),
{
    lemma_least_modulus(n, max_exponent(n), 2, max_modulus(n));
}

/// Only the order witness is the smallest modulus that meets the order
/// condition: whoever finds such an `r`, in whatever order the moduli and
/// exponents are tried, finds the same one.
pub proof fn lemma_order_witness_unique(n: nat, r: nat)
    requires
        is_order_witness(n, r),
    ensures
        r == order_witness(n),
{
    lemma_order_witness_is_least(n);
}

/// `k` is the multiplicative order of `n` modulo `r`: the smallest positive
/// exponent with `n^k` congruent to 1.
pub open spec fn is_multiplicative_order(n: nat, r: nat, k: nat) -> bool {
    &&& k >= 1
    &&& pow(n as int, k) % (r as int) == 1
    &&& forall|j: nat| 1 <= j < k ==> #[trigger] pow(n as int, j) % (r as int) != 1
}

/// No power of `n` is a multiple of a modulus `r >= 2` that shares no factor
/// with `n`.
proof fn lemma_coprime_power_is_no_multiple(n: nat, r: nat, k: nat)
    requires
        r >= 2,
        gcd(n, r) == 1,
    ensures
        pow(n as int, k) % (r as int) != 0,
    decreases k,
{
    assert(n > 0) by {
        reveal_with_fuel(gcd, 3);
    }
    if k == 0 {
        lemma_pow0(n as int);
        lemma_small_mod(1, r);
    } else {
        let rest = pow(n as int, (k - 1) as nat);
        lemma_pow_positive(n as int, (k - 1) as nat);
        lemma_coprime_power_is_no_multiple(n, r, (k - 1) as nat);
        assert(pow(n as int, k) == n * rest) by {
            reveal(pow);
        }
        if pow(n as int, k) % (r as int) == 0 {
            assert(divides(r, n * (rest as nat)));
            lemma_coprime_cancels(r, n, rest as nat);
        }
    }
}

/// What the second stage asks of a modulus is a bound on the multiplicative
/// order: where `n` has the order `k` modulo `r`, the powers of `n` with
/// exponents in `[1, bound]` all stay away from 0 and 1 modulo `r` exactly
/// if `k` is above `bound`.
pub proof fn lemma_order_above_bounds_the_order(n: nat, r: nat, k: nat, bound: nat)
    requires
        r >= 2,
        gcd(n, r) == 1,
        is_multiplicative_order(n, r, k),
    ensures
        order_above(n, r, bound) <==> k > bound,
{
    if k <= bound {
        assert(trivial_residue(n, k, r));
    } else {
        assert forall|j: nat| 1 <= j <= bound implies !#[trigger] trivial_residue(n, j, r) by {
            lemma_coprime_power_is_no_multiple(n, r, j);
        }
    }
}

/// `n` is a perfect power: `a^b` for some integers `a > 1` and `b > 1`.
pub open spec fn is_perfect_power(n: nat) -> bool {
    exists|a: nat, b: nat| a > 1 && b > 1 && #[trigger] pow(a as int, b) == n
}

/// A power `a^b` with `a >= 2` and `b >= 2` is a multiple of `a` above `a`.
proof fn lemma_power_has_proper_factor(a: nat, b: nat)
    requires
        a >= 2,
        b >= 2,
    ensures
        pow(a as int, b) > a,
        divides(a, pow(a as int, b) as nat),
{
    let rest = pow(a as int, (b - 1) as nat);
    lemma_pow0(a as int);
    lemma_pow_strictly_increases(a, 0, (b - 1) as nat);
    assert(pow(a as int, b) == a * rest) by {
        reveal(pow);
    }
    assert(a * rest > a) by (nonlinear_arith)
        requires
            rest >= 2,
            a >= 2,
    ;
    lemma_multiple_divides(a, rest as nat);
}

/// Raising a larger base to the same exponent gives no less: `2^b <= a^b`
/// for `a >= 2`.
proof fn lemma_power_of_two_is_least(a: nat, b: nat)
    requires
        a >= 2,
    ensures
        pow(2, b) <= pow(a as int, b),
    decreases b,
{
    reveal(pow);
    if b > 0 {
        let e: nat = (b - 1) as nat;
        lemma_power_of_two_is_least(a, e);
        lemma_pow_positive(2, e);
        assert(2 * pow(2, e) <= a * pow(a as int, e)) by (nonlinear_arith)
            requires
                0 < pow(2, e) <= pow(a as int, e),
                a >= 2,
        ;
    }
}

/// A root of a number that is at least 2 is itself at least 2.
proof fn lemma_root_is_proper(n: nat, a: nat, b: nat)
    requires
        n >= 2,
        b >= 1,
        pow(a as int, b) == n,
    ensures
        a >= 2,
{
    if a == 0 {
        lemma0_pow(b);
    } else if a == 1 {
        lemma1_pow(b);
    }
}

/// The first stage rejects exactly the perfect powers: the exponents up to
/// `floor_log2(n)` are all that a perfect power can have.
pub proof fn lemma_stage1_rejects_perfect_powers(n: nat)
    requires
        n >= 2,
    ensures
        stage1_rejects(n) <==> is_perfect_power(n),
{
    if stage1_rejects(n) {
        let b = choose|b: nat| 2 <= b <= floor_log2(n) && #[trigger] has_exact_root(n, b);
        let a = choose|a: nat| #[trigger] pow(a as int, b) == n;
        lemma_root_is_proper(n, a, b);
        assert(a > 1 && b > 1 && pow(a as int, b) == n);
    }
    if is_perfect_power(n) {
        let (a, b) = choose|a: nat, b: nat| a > 1 && b > 1 && #[trigger] pow(a as int, b) == n;
        let top = floor_log2(n);
        lemma_power_of_two_is_least(a, b);
        lemma_pow2(b);
        lemma_floor_log2_bounds(n);
        if b > top + 1 {
            lemma_pow2_strictly_increases(top + 1, b);
        }
        assert(b <= top);
        assert(has_exact_root(n, b));
    }
}

/// The first stage has no exponent to try below 4, and rejects nothing
/// there.
pub proof fn lemma_stage1_idle_below_four(n: nat)
    requires
        n < 4,
    ensures
        !stage1_rejects(n),
{
    assert(floor_log2(n) <= 1) by {
        reveal_with_fuel(floor_log2, 2);
    }
}

/// A perfect power is not prime.
pub proof fn lemma_perfect_power_is_composite(n: nat)
    requires
        is_perfect_power(n),
    ensures
        !prime(n),
{
    let (a, b) = choose|a: nat, b: nat| a > 1 && b > 1 && #[trigger] pow(a as int, b) == n;
    lemma_power_has_proper_factor(a, b);
    assert(divides(a, n));
}

/// What the third stage rejects is not prime.
pub proof fn lemma_stage3_rejects_composites(n: nat, r: nat)
    requires
        stage3_rejects(n, r),
    ensures
        !prime(n),
{
    let a = choose|a: nat| 1 <= a < r && 1 < #[trigger] gcd(n, a) < n;
    lemma_gcd_is_gcd(n, a);
    assert(divides(gcd(n, a), n));
}

/// What passes the third stage and is accepted by the fourth is prime: no
/// number below `n` shares a factor with it.
pub proof fn lemma_stage4_accepts_primes(n: nat, r: nat)
    requires
        n >= 2,
        !stage3_rejects(n, r),
        n <= r,
    ensures
        prime(n),
{
    assert forall|d: nat| 1 < d < n implies !#[trigger] divides(d, n) by {
        if divides(d, n) {
            lemma_mod_self_0(d as int);
            assert(is_gcd(n, d, d));
            lemma_gcd_unique(n, d, d);
            assert(1 < gcd(n, d) < n);
        }
    }
}

/// What the fifth stage rejects is not prime.
pub proof fn lemma_stage5_rejects_composites(n: nat)
    requires
        n >= 2,
        stage5_rejects(n),
    ensures
        !prime(n),
{
    let i = choose|i: nat| 1 <= i <= n / 2 - 1 && #[trigger] binomial(n, i) % n != 0;
    if prime(n) {
        lemma_prime_divides_binomial(n, i);
    }
}

/// The fifth stage rejects every composite number but 4: the least prime
/// factor `p` of `n` lies in the range that it walks, and `n` does not
/// divide `C(n, p)`.
pub proof fn lemma_stage5_catches_composites(n: nat)
    requires
        n >= 2,
        !prime(n),
        n != 4,
    ensures
        stage5_rejects(n),
{
    let p = least_prime_factor(n);
    lemma_least_prime_factor(n);
    lemma_prime_factor_binomial(n, p);
    lemma_divides_quotient(p, n);
    let m: nat = (n / p) as nat;
    assert(m >= 2) by (nonlinear_arith)
        requires
            n == p * m,
            p < n,
            p >= 2,
    ;
    assert(n == m * p) by (nonlinear_arith)
        requires
            n == p * m,
    ;
    lemma_multiple_divides(m, p);
    assert(m >= p);
    assert(p <= n / 2 - 1) by (nonlinear_arith)
        requires
            n == p * m,
            m >= p,
            p >= 2,
            n != 4,
    ;
    assert(1 <= p <= n / 2 - 1 && binomial(n, p) % n != 0);
}

/// The first stage rejects 4, which is `2^2`.
pub proof fn lemma_stage1_rejects_four()
    ensures
        stage1_rejects(4),
{
    assert(floor_log2(4) == 2) by {
        reveal_with_fuel(floor_log2, 3);
    }
    assert(pow(2, 2) == 4) by {
        reveal_with_fuel(pow, 3);
    }
    assert(has_exact_root(4, 2));
}

/// The candidates 2 and 3 are accepted by the fourth stage: the first and
/// the third stage let them pass, and their order witness is 3.
pub proof fn lemma_stage4_accepts_two_and_three(n: nat)
    requires
        2 <= n <= 3,
    ensures
        !stage1_rejects(n),
        order_witness(n) == 3,
        !stage3_rejects(n, order_witness(n)),
        n <= order_witness(n),
{
    lemma_stage1_idle_below_four(n);
    assert(floor_log2(n) == 1) by {
        reveal_with_fuel(floor_log2, 2);
    }
    assert(max_exponent(n) == 1 && max_modulus(n) == 3);
    lemma_order_witness_is_least(n);
    assert(trivial_residue(n, 1, 2));
    assert(prime(n)) by {
        assert forall|d: nat| 1 < d < n implies !#[trigger] divides(d, n) by {
            assert(d == 2 && n == 3);
        }
    }
    if stage3_rejects(n, order_witness(n)) {
        lemma_stage3_rejects_composites(n, order_witness(n));
    }
}

/// The pipeline answers whether its candidate is prime.
pub proof fn lemma_pipeline_decides_primality(n: nat)
    requires
        n >= 2,
    ensures
        pipeline_verdict(n) == prime(n),
{
    let r = order_witness(n);
    if stage1_rejects(n) {
        lemma_stage1_rejects_perfect_powers(n);
        lemma_perfect_power_is_composite(n);
    } else if stage3_rejects(n, r) {
        lemma_stage3_rejects_composites(n, r);
    } else if n <= r {
        lemma_stage4_accepts_primes(n, r);
    } else if stage5_rejects(n) {
        lemma_stage5_rejects_composites(n);
    } else {
        lemma_stage1_rejects_four();
        if !prime(n) {
            lemma_stage5_catches_composites(n);
        }
    }
}

/// Repeated runs agree: whatever witnesses and verdicts two runs on one
/// candidate come to, they are the same witness and the same verdict, and
/// the verdict says whether the candidate is prime.
pub proof fn lemma_runs_agree(
    n: nat,
    first_witness: nat,
    second_witness: nat,
    first_verdict: bool,
    second_verdict: bool,
)
    requires
        n >= 2,
        is_order_witness(n, first_witness),
        is_order_witness(n, second_witness),
        first_verdict == pipeline_verdict(n),
        second_verdict == pipeline_verdict(n),
    ensures
        first_witness == second_witness,
        first_verdict == second_verdict,
        first_verdict == prime(n),
{
    lemma_order_witness_unique(n, first_witness);
    lemma_order_witness_unique(n, second_witness);
    lemma_pipeline_decides_primality(n);
}

} // verus!
