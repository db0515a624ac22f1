//! The arithmetic notions that the primality test is stated in: divisibility,
//! primality, greatest common divisors and the floor of the binary logarithm.

use vstd::arithmetic::div_mod::*;
use vstd::arithmetic::power2::*;
use vstd::prelude::*;

verus! {

/// `d` divides `n`. Zero divides only zero.
pub open spec fn divides(d: nat, n: nat) -> bool {
    if d == 0 {
        n == 0
    } else {
        n % d == 0
    }
}

/// `n` is a prime number: at least 2, with no divisor strictly between 1 and
/// itself.
pub open spec fn prime(n: nat) -> bool {
    &&& n >= 2
    &&& forall|d: nat| 1 < d < n ==> !#[trigger] divides(d, n)
}

/// `g` is the greatest common divisor of `a` and `b`, greatest in the
/// divisibility order: it divides both, and every common divisor divides it.
pub open spec fn is_gcd(a: nat, b: nat, g: nat) -> bool {
    &&& divides(g, a)
    &&& divides(g, b)
    &&& forall|d: nat| #[trigger] divides(d, a) && divides(d, b) ==> divides(d, g)
}

/// The greatest common divisor of `a` and `b`, with `gcd(a, 0) == a`.
pub open spec fn gcd(a: nat, b: nat) -> nat
    decreases b,
{
    if b == 0 {
        a
    } else {
        gcd(b, a % b)
    }
}

/// A number that `d` divides is `d` times the quotient.
pub proof fn lemma_divides_quotient(d: nat, n: nat)
    requires
        divides(d, n),
    ensures
        n == d * (n / d),
{
    if d > 0 {
        lemma_fundamental_div_mod(n as int, d as int);
    }
}

/// Every multiple of `d` is divisible by `d`.
pub proof fn lemma_multiple_divides(d: nat, k: nat)
    ensures
        divides(d, d * k),
{
    if d > 0 {
        lemma_mod_multiples_basic(k as int, d as int);
        assert(d * k == k * d) by (nonlinear_arith);
    } else {
        assert(d * k == 0) by (nonlinear_arith)
            requires
                d == 0,
        ;
    }
}

/// A divisor of a positive number is at most that number.
pub proof fn lemma_divides_le(d: nat, n: nat)
    requires
        divides(d, n),
        n > 0,
    ensures
        1 <= d <= n,
{
    if d > n {
        lemma_small_mod(n, d);
    }
}

/// Divisibility is transitive.
pub proof fn lemma_divides_transitive(a: nat, b: nat, c: nat)
    requires
        divides(a, b),
        divides(b, c),
    ensures
        divides(a, c),
{
    lemma_divides_quotient(a, b);
    lemma_divides_quotient(b, c);
    let x: nat = (b / a) as nat;
    let y: nat = (c / b) as nat;
    assert(c == a * (x * y)) by (nonlinear_arith)
        requires
            b == a * x,
            c == b * y,
    ;
    lemma_multiple_divides(a, x * y);
}

/// Two numbers that divide each other are equal.
pub proof fn lemma_divides_antisymmetric(a: nat, b: nat)
    requires
        divides(a, b),
        divides(b, a),
    ensures
        a == b,
{
    if a > 0 && b > 0 {
        lemma_divides_le(a, b);
        lemma_divides_le(b, a);
    }
}

/// What divides `x` and `y` divides `x + q * y`.
pub proof fn lemma_divides_sum(d: nat, x: nat, y: nat, q: nat)
    requires
        divides(d, x),
        divides(d, y),
    ensures
        divides(d, x + q * y),
{
    lemma_divides_quotient(d, x);
    lemma_divides_quotient(d, y);
    let u: nat = (x / d) as nat;
    let v: nat = (y / d) as nat;
    assert(x + q * y == d * (u + q * v)) by (nonlinear_arith)
        requires
            x == d * u,
            y == d * v,
    ;
    lemma_multiple_divides(d, u + q * v);
}

/// What divides `x + q * y` and `y` divides `x`.
pub proof fn lemma_divides_difference(d: nat, x: nat, y: nat, q: nat)
    requires
        divides(d, x + q * y),
        divides(d, y),
    ensures
        divides(d, x),
{
    let s: nat = x + q * y;
    lemma_divides_quotient(d, s);
    lemma_divides_quotient(d, y);
    let u: nat = (s / d) as nat;
    let v: nat = (y / d) as nat;
    assert(x == d * (u - q * v)) by (nonlinear_arith)
        requires
            x + q * y == d * u,
            y == d * v,
    ;
    if d > 0 {
        assert(u - q * v >= 0) by (nonlinear_arith)
            requires
                x == d * (u - q * v),
                d > 0,
        ;
        lemma_multiple_divides(d, (u - q * v) as nat);
    } else {
        assert(d * (u - q * v) == 0) by (nonlinear_arith)
            requires
                d == 0,
        ;
    }
}

/// `gcd(a, b)` is the greatest common divisor of `a` and `b`.
pub proof fn lemma_gcd_is_gcd(a: nat, b: nat)
    ensures
        is_gcd(a, b, gcd(a, b)),
    decreases b,
{
    if b == 0 {
        lemma_multiple_divides(a, 1);
        lemma_multiple_divides(a, 0);
        assert(a * 1 == a && a * 0 == 0) by (nonlinear_arith);
    } else {
        let rem: nat = a % b;
        let quot: nat = a / b;
        let g = gcd(b, rem);
        lemma_gcd_is_gcd(b, rem);
        lemma_fundamental_div_mod(a as int, b as int);
        assert(a == rem + quot * b) by (nonlinear_arith)
            requires
                a == b * quot + rem,
        ;
        lemma_divides_sum(g, rem, b, quot);
        assert forall|d: nat| #[trigger] divides(d, a) && divides(d, b) implies divides(d, g) by {
            lemma_divides_difference(d, rem, b, quot);
        }
    }
}

/// A pair of numbers has only one greatest common divisor.
pub proof fn lemma_gcd_unique(a: nat, b: nat, g: nat)
    requires
        is_gcd(a, b, g),
    ensures
        g == gcd(a, b),
{
    lemma_gcd_is_gcd(a, b);
    lemma_divides_antisymmetric(g, gcd(a, b));
}

/// Bezout's identity: some integers `x` and `y` have
/// `a * x + b * y == gcd(a, b)`. The proof returns such a pair.
pub proof fn lemma_bezout(a: nat, b: nat) -> (coefficients: (int, int))
    ensures
        a * coefficients.0 + b * coefficients.1 == gcd(a, b),
    decreases b,
{
    if b == 0 {
        assert(a * 1 + b * 0 == a) by (nonlinear_arith);
        (1, 0)
    } else {
        let rem: nat = a % b;
        let quot: nat = a / b;
        let (x, y) = lemma_bezout(b, rem);
        lemma_fundamental_div_mod(a as int, b as int);
        assert(a * y + b * (x - quot * y) == b * x + rem * y) by (nonlinear_arith)
            requires
                a == b * quot + rem,
        ;
        (y, x - quot * y)
    }
}

/// A prime shares no factor but 1 with a number that it does not divide.
pub proof fn lemma_prime_coprime(p: nat, a: nat)
    requires
        prime(p),
        !divides(p, a),
    ensures
        gcd(a, p) == 1,
{
    let g = gcd(a, p);
    lemma_gcd_is_gcd(a, p);
    lemma_divides_le(g, p);
    if g == p {
    } else if g > 1 {
        assert(divides(g, p));
    }
}

/// What divides a product and shares no factor with one of the factors
/// divides the other.
pub proof fn lemma_coprime_cancels(r: nat, a: nat, b: nat)
    requires
        gcd(a, r) == 1,
        divides(r, a * b),
    ensures
        divides(r, b),
{
    if r == 0 {
        assert(b == 0) by (nonlinear_arith)
            requires
                a == 1,
                a * b == 0,
        ;
    } else {
        let (x, y) = lemma_bezout(a, r);
        lemma_divides_quotient(r, a * b);
        let q: nat = ((a * b) / r) as nat;
        let k: int = q * x + b * y;
        assert(b == r * k) by (nonlinear_arith)
            requires
                a * x + r * y == 1,
                a * b == r * q,
                k == q * x + b * y,
        ;
        assert(k >= 0) by (nonlinear_arith)
            requires
                b == r * k,
                r > 0,
                b >= 0,
        ;
        lemma_multiple_divides(r, k as nat);
    }
}

/// Euclid's lemma: a prime that divides a product divides one of its
/// factors.
pub proof fn lemma_euclid(p: nat, a: nat, b: nat)
    requires
        prime(p),
        divides(p, a * b),
    ensures
        divides(p, a) || divides(p, b),
{
    if !divides(p, a) {
        lemma_prime_coprime(p, a);
        lemma_coprime_cancels(p, a, b);
    }
}

/// The least divisor of `n` that is at least `from`, or `n` where none is
/// below `n`.
pub open spec fn least_divisor_from(n: nat, from: nat) -> nat
    decreases n - from,
{
    if from >= n {
        n
    } else if divides(from, n) {
        from
    } else {
        least_divisor_from(n, from + 1)
    }
}

/// The least prime factor of `n >= 2`: its least divisor above 1.
pub open spec fn least_prime_factor(n: nat) -> nat {
    least_divisor_from(n, 2)
}

/// `least_divisor_from(n, from)` divides `n`, and nothing between `from` and
/// it does.
pub proof fn lemma_least_divisor_from(n: nat, from: nat)
    requires
        2 <= from <= n,
    ensures
        from <= least_divisor_from(n, from) <= n,
        divides(least_divisor_from(n, from), n),
        forall|d: nat| from <= d < least_divisor_from(n, from) ==> !#[trigger] divides(d, n),
    decreases n - from,
{
    if from >= n {
        lemma_mod_self_0(n as int);
    } else if !divides(from, n) {
        lemma_least_divisor_from(n, from + 1);
    }
}

/// The least prime factor of `n >= 2` is a prime that divides `n`, no
/// divisor of `n` lies strictly between 1 and it, and it is below `n` where
/// `n` is not prime.
pub proof fn lemma_least_prime_factor(n: nat)
    requires
        n >= 2,
    ensures
        prime(least_prime_factor(n)),
        divides(least_prime_factor(n), n),
        2 <= least_prime_factor(n) <= n,
        forall|d: nat| 1 < d < least_prime_factor(n) ==> !#[trigger] divides(d, n),
        !prime(n) ==> least_prime_factor(n) < n,
{
    let p = least_prime_factor(n);
    lemma_least_divisor_from(n, 2);
    assert forall|d: nat| 1 < d < p implies !#[trigger] divides(d, p) by {
        if divides(d, p) {
            lemma_divides_transitive(d, p, n);
        }
    }
}

/// The floor of the base-2 logarithm of `n`; 0 for `n < 2`.
pub open spec fn floor_log2(n: nat) -> nat
    decreases n,
{
    if n < 2 {
        0
    } else {
        1 + floor_log2(n / 2)
    }
}

/// `floor_log2(n)` is the exponent of the greatest power of two that is at
/// most `n`.
pub proof fn lemma_floor_log2_bounds(n: nat)
    requires
        n >= 1,
    ensures
        pow2(floor_log2(n)) <= n < pow2(floor_log2(n) + 1),
    decreases n,
{
    lemma2_to64();
    if n >= 2 {
        let h = n / 2;
        lemma_floor_log2_bounds(h);
        lemma_pow2_unfold(floor_log2(h) + 1);
        lemma_pow2_unfold(floor_log2(h) + 2);
    }
}

/// Only one exponent `l` has `2^l <= n < 2^(l + 1)`.
pub proof fn lemma_floor_log2_unique(n: nat, l: nat)
    requires
        pow2(l) <= n < pow2(l + 1),
    ensures
        l == floor_log2(n),
{
    lemma_pow2_pos(l);
    lemma_floor_log2_bounds(n);
    let m = floor_log2(n);
    if l < m {
        if l + 1 < m {
            lemma_pow2_strictly_increases(l + 1, m);
        }
    } else if m < l {
        if m + 1 < l {
            lemma_pow2_strictly_increases(m + 1, l);
        }
    }
}

} // verus!
