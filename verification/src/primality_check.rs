//! The six-stage primality test.
//!
//! Each stage looks at the candidate `n` and either reaches a verdict or
//! leaves the question open for the next stage. The second stage computes the
//! order witness `r`, which it stores in the [`Context`] for the third and
//! fourth stages.

use vstd::arithmetic::div_mod::lemma_div_by_multiple;
use vstd::arithmetic::power::*;
use vstd::prelude::*;

use crate::binomial::{binomial, lemma_binomial_step};
use crate::correctness::{lemma_order_witness_is_least, lemma_pipeline_decides_primality};
use crate::natural::{
    lemma_log2_below_capacity, limb_count_limit, natural_add, natural_checked_root, natural_div,
    natural_gcd, natural_le, natural_le_u128, natural_mod, natural_mod_pow, natural_mul,
    natural_significant_bits, natural_sub, BigNat,
};
use crate::number_theory::{floor_log2, gcd, lemma_floor_log2_unique, lemma_gcd_unique, prime};

verus! {

/// The type of the candidates.
pub type TestInput = BigNat;

/// What one stage found: `Some(verdict)` ends the run with that verdict,
/// `None` hands the candidate to the next stage.
#[derive(Debug)]
pub struct TestResult {
    pub is_prime: Option<bool>,
}

/// The state that the stages of one run share: the order witness `r`, zero
/// until the second stage has run.
#[derive(Debug)]
pub struct Context {
    pub r: u128,
}

/// The most limbs a candidate may have. It keeps the largest modulus of the
/// second stage, `floor_log2(n)^5 + 1`, within 128 bits: candidates are below
/// `2^50859008`.
pub const MAX_LIMBS: usize = 794_672;

/// The candidates that the test accepts: at least 2, and within the size limit.
pub open spec fn valid_candidate(n: &BigNat) -> bool {
    &&& n@ >= 2
    &&& n.limbs@.len() <= MAX_LIMBS
}

/// Whether the test accepts `n` as a candidate.
pub fn is_valid_candidate(n: &BigNat) -> (res: bool)
    ensures
        res == valid_candidate(n),
{
    n.limbs.len() <= MAX_LIMBS && !natural_le_u128(n, 1)
}

/// The largest exponent that the second stage tries: `floor_log2(n)^2`.
pub open spec fn max_exponent(n: nat) -> nat {
    floor_log2(n) * floor_log2(n)
}

/// The bound of the second stage's search: `max(floor_log2(n)^5 + 1, 3)`.
pub open spec fn max_modulus(n: nat) -> nat {
    let l = floor_log2(n);
    let c = l * l * l * l * l + 1;
    if c < 3 {
        3
    } else {
        c
    }
}

/// `n^k mod r` is 0 or 1.
pub open spec fn trivial_residue(n: nat, k: nat, r: nat) -> bool {
    pow(n as int, k) % (r as int) <= 1
}

/// No exponent `k` in `[1, bound]` brings `n^k mod r` to 0 or 1: the
/// multiplicative order of `n` modulo `r`, if it has one, is above `bound`.
pub open spec fn order_above(n: nat, r: nat, bound: nat) -> bool {
    forall|k: nat| 1 <= k <= bound ==> !#[trigger] trivial_residue(n, k, r)
}

/// The least `r` in `[from, limit)` with `order_above(n, r, bound)`, or
/// `limit` where there is none.
pub open spec fn least_modulus_with_order_above(n: nat, bound: nat, from: nat, limit: nat) -> nat
    decreases limit - from,
{
    if from >= limit {
        limit
    } else if order_above(n, from, bound) {
        from
    } else {
        least_modulus_with_order_above(n, bound, from + 1, limit)
    }
}

/// The order witness of `n`: the least `r >= 2` below `max_modulus(n)` such
/// that no `k` in `[1, max_exponent(n)]` has `n^k mod r` in `{0, 1}`, or
/// `max_modulus(n)` where no such `r` exists.
pub open spec fn order_witness(n: nat) -> nat {
    least_modulus_with_order_above(n, max_exponent(n), 2, max_modulus(n))
}

/// Some natural number raised to `b` gives `n`.
pub open spec fn has_exact_root(n: nat, b: nat) -> bool {
    exists|a: nat| #[trigger] pow(a as int, b) == n
}

/// What the first stage rejects: `n` has an exact integer `b`-th root for
/// some `b` in `[2, floor_log2(n)]`.
pub open spec fn stage1_rejects(n: nat) -> bool {
    exists|b: nat| 2 <= b <= floor_log2(n) && #[trigger] has_exact_root(n, b)
}

/// What the third stage rejects: some `a` in `[1, r)` has
/// `1 < gcd(n, a) < n`.
pub open spec fn stage3_rejects(n: nat, r: nat) -> bool {
    exists|a: nat| 1 <= a < r && 1 < #[trigger] gcd(n, a) < n
}

/// What the fifth stage rejects: some `C(n, i)` with `i` in
/// `[1, floor(n / 2) - 1]` is not divisible by `n`.
pub open spec fn stage5_rejects(n: nat) -> bool {
    exists|i: nat| 1 <= i <= n / 2 - 1 && #[trigger] binomial(n, i) % n != 0
}

/// The verdict of the whole pipeline: that of the first stage, in order,
/// which reaches one. The second stage reaches none, it only finds the
/// witness for the third and the fourth; the sixth accepts what the others
/// have left open.
pub open spec fn pipeline_verdict(n: nat) -> bool {
    if stage1_rejects(n) {
        false
    } else if stage3_rejects(n, order_witness(n)) {
        false
    } else if n <= order_witness(n) {
        true
    } else if stage5_rejects(n) {
        false
    } else {
        true
    }
}

/// The floor of the base-2 logarithm of `n`.
pub fn calculate_log2(n: &BigNat) -> (l: u64)
    requires
        n@ >= 1,
        n.limbs@.len() < limb_count_limit(),
    ensures
        l == floor_log2(n@),
        l < 64 * n.limbs@.len(),
{
    let bits: u64 = natural_significant_bits(n);
    proof {
        lemma_floor_log2_unique(n@, (bits - 1) as nat);
        lemma_log2_below_capacity(n.limbs@);
    }
    bits - 1
}

/// Whether `n` has an exact integer `b`-th root.
pub fn has_root(n: &BigNat, b: u64) -> (res: bool)
    requires
        0 < b <= usize::MAX,
    ensures
        res == has_exact_root(n@, b as nat),
{
    match natural_checked_root(n, b) {
        Some(root) => {
            assert(pow(root@ as int, b as nat) == n@);
            true
        },
        None => false,
    }
}

/// First stage: rejects `n` where it is a perfect power, that is where it
/// has an exact integer `b`-th root for some `b` in `[2, floor_log2(n)]`.
pub fn test1(n: &BigNat, context: &mut Context) -> (res: TestResult)
    requires
        valid_candidate(n),
    ensures
        res.is_prime == (if stage1_rejects(n@) {
            Some(false)
        } else {
            None
        }),
        final(context).r == old(context).r,
{
    let top: u64 = calculate_log2(n);
    let mut b: u64 = 2;
    while b <= top
        invariant
            2 <= b <= top + 1,
            top < 64 * MAX_LIMBS,
            top == floor_log2(n@),
            forall|c: nat| 2 <= c < b ==> !#[trigger] has_exact_root(n@, c),
        decreases top + 1 - b,
    {
        if has_root(n, b) {
            return TestResult { is_prime: Some(false) };
        }
        b = b + 1;
    }
    TestResult { is_prime: None }
}

/// Whether `n^k mod r` is 0 or 1.
pub fn has_trivial_residue(n: &BigNat, k: u128, r: u128) -> (res: bool)
    requires
        r > 0,
    ensures
        res == trivial_residue(n@, k as nat, r as nat),
{
    let modulus = BigNat::from_u128(r);
    let base = natural_mod(n, &modulus);
    let exponent = BigNat::from_u128(k);
    let residue = natural_mod_pow(&base, &exponent, &modulus);
    proof {
        lemma_pow_mod_noop(n@ as int, k as nat, r as int);
    }
    natural_le_u128(&residue, 1)
}

/// Whether no exponent in `[1, bound]` brings `n^k mod r` to 0 or 1.
pub fn has_order_above(n: &BigNat, r: u128, bound: u128) -> (res: bool)
    requires
        r > 0,
    ensures
        res == order_above(n@, r as nat, bound as nat),
{
    let modulus = BigNat::from_u128(r);
    let base = natural_mod(n, &modulus);
    let mut k: u128 = 0;
    while k < bound
        invariant
            k <= bound,
            r > 0,
            modulus@ == r,
            base@ == n@ % modulus@,
            forall|j: nat| 1 <= j <= k ==> !#[trigger] trivial_residue(n@, j, r as nat),
        decreases bound - k,
    {
        k = k + 1;
        let exponent = BigNat::from_u128(k);
        let residue = natural_mod_pow(&base, &exponent, &modulus);
        proof {
            lemma_pow_mod_noop(n@ as int, k as nat, r as int);
        }
        if natural_le_u128(&residue, 1) {
            assert(trivial_residue(n@, k as nat, r as nat));
            return false;
        }
    }
    true
}

/// The bounds of the second stage's search for `n`: the largest exponent,
/// `floor_log2(n)^2`, and the limit of the moduli,
/// `max(floor_log2(n)^5 + 1, 3)`.
pub fn search_bounds(n: &BigNat) -> (bounds: (u128, u128))
    requires
        valid_candidate(n),
    ensures
        bounds.0 == max_exponent(n@),
        bounds.1 == max_modulus(n@),
{
    // The logarithm is below 64 * MAX_LIMBS = 50859008, so its fifth power
    // plus one fits in 128 bits:
    //   50859007^2 = 2586638593026049
    //   50859007^4 = 6690699210931778346418792550401
    //   50859007^5 = 340282318003673791442961795252392311807 < 2^128 - 1
    let l: u128 = calculate_log2(n) as u128;
    assert(l * l <= 2586638593026049) by (nonlinear_arith)
        requires
            l <= 50_859_007,
    ;
    let square: u128 = l * l;
    assert(square * square <= 6690699210931778346418792550401) by (nonlinear_arith)
        requires
            square <= 2586638593026049,
    ;
    let fourth: u128 = square * square;
    assert(fourth * l <= 340282318003673791442961795252392311807) by (nonlinear_arith)
        requires
            fourth <= 6690699210931778346418792550401,
            l <= 50_859_007,
    ;
    let fifth: u128 = fourth * l + 1;
    assert(fifth == l * l * l * l * l + 1) by (nonlinear_arith)
        requires
            fifth == ((l * l) * (l * l)) * l + 1,
    ;
    if fifth < 3 {
        (square, 3)
    } else {
        (square, fifth)
    }
}

/// Second stage: finds the order witness of `n` and stores it in the
/// context. It never reaches a verdict.
pub fn test2(n: &BigNat, context: &mut Context) -> (res: TestResult)
    requires
        valid_candidate(n),
    ensures
        res.is_prime is None,
        final(context).r == order_witness(n@),
        2 <= final(context).r <= max_modulus(n@),
{
    proof {
        lemma_order_witness_is_least(n@);
    }
    let (max_k, max_r) = search_bounds(n);
    let mut r: u128 = 2;
    let mut found: bool = false;
    while !found && r < max_r
        invariant
            2 <= r <= max_r,
            order_witness(n@) == least_modulus_with_order_above(
                n@,
                max_k as nat,
                r as nat,
                max_r as nat,
            ),
            found ==> r < max_r && order_above(n@, r as nat, max_k as nat),
        decreases (max_r - r) + (if found { 0int } else { 1int }),
    {
        if has_order_above(n, r, max_k) {
            found = true;
        } else {
            r = r + 1;
        }
    }
    context.r = r;
    TestResult { is_prime: None }
}

/// Whether `a` shares with `n` a factor that is neither 1 nor `n`:
/// `1 < gcd(n, a) < n`.
pub fn shares_proper_factor(n: &BigNat, a: u128) -> (res: bool)
    ensures
        res == (1 < gcd(n@, a as nat) < n@),
{
    let other = BigNat::from_u128(a);
    let g = natural_gcd(n, &other);
    proof {
        lemma_gcd_unique(n@, a as nat, g@);
    }
    !natural_le_u128(&g, 1) && !natural_le(n, &g)
}

/// Third stage: rejects `n` where some `a` in `[1, r)` shares a factor with
/// it that is neither 1 nor `n`. `r` is the order witness in the context.
pub fn test3(n: &BigNat, context: &mut Context) -> (res: TestResult)
    ensures
        res.is_prime == (if stage3_rejects(n@, old(context).r as nat) {
            Some(false)
        } else {
            None
        }),
        final(context).r == old(context).r,
{
    let r: u128 = context.r;
    let mut a: u128 = 1;
    while a < r
        invariant
            1 <= a,
            a <= r || r == 0,
            r == old(context).r,
            context.r == old(context).r,
            forall|c: nat| 1 <= c < a ==> !(1 < #[trigger] gcd(n@, c) < n@),
        decreases r - a,
    {
        if shares_proper_factor(n, a) {
            return TestResult { is_prime: Some(false) };
        }
        a = a + 1;
    }
    TestResult { is_prime: None }
}

/// Fourth stage: accepts `n` where it is at most the order witness `r` in
/// the context.
pub fn test4(n: &BigNat, context: &mut Context) -> (res: TestResult)
    ensures
        res.is_prime == (if n@ <= old(context).r {
            Some(true)
        } else {
            None
        }),
        final(context).r == old(context).r,
{
    if natural_le_u128(n, context.r) {
        TestResult { is_prime: Some(true) }
    } else {
        TestResult { is_prime: None }
    }
}

/// Fifth stage: rejects `n` where it does not divide some binomial
/// coefficient `C(n, i)` with `i` in `[1, floor(n / 2) - 1]`. It walks along
/// the row, getting each coefficient from the one before it by one exact
/// multiplication and division.
pub fn test5(n: &BigNat, context: &mut Context) -> (res: TestResult)
    requires
        n@ >= 2,
    ensures
        res.is_prime == (if stage5_rejects(n@) {
            Some(false)
        } else {
            None
        }),
        final(context).r == old(context).r,
{
    let one = BigNat::from_u64(1);
    let two = BigNat::from_u64(2);
    let half = natural_div(n, &two);
    let limit = natural_sub(&half, &one);
    let mut current = BigNat::from_u64(1);
    let mut i = BigNat::from_u64(1);
    while natural_le(&i, &limit)
        invariant
            n@ >= 2,
            one@ == 1,
            limit@ == n@ / 2 - 1,
            1 <= i@ <= limit@ + 1,
            current@ == binomial(n@, (i@ - 1) as nat),
            forall|j: nat| 1 <= j < i@ ==> #[trigger] binomial(n@, j) % n@ == 0,
        decreases limit@ + 1 - i@,
    {
        let rest = natural_sub(n, &i);
        let factor = natural_add(&rest, &one);
        let product = natural_mul(&current, &factor);
        let next = natural_div(&product, &i);
        proof {
            let k: nat = (i@ - 1) as nat;
            lemma_binomial_step(n@, k);
            assert(product@ == binomial(n@, i@) * i@) by (nonlinear_arith)
                requires
                    product@ == binomial(n@, k) * (n@ - i@ + 1),
                    (k + 1) * binomial(n@, k + 1) == (n@ - k) * binomial(n@, k),
                    k == i@ - 1,
            ;
            lemma_div_by_multiple(binomial(n@, i@) as int, i@ as int);
        }
        current = next;
        let remainder = natural_mod(&current, n);
        if !natural_le_u128(&remainder, 0) {
            return TestResult { is_prime: Some(false) };
        }
        i = natural_add(&i, &one);
    }
    TestResult { is_prime: None }
}

/// Sixth stage: accepts whatever reaches it.
pub fn test6(n: &BigNat, context: &mut Context) -> (res: TestResult)
    ensures
        res.is_prime == Some(true),
        final(context).r == old(context).r,
{
    TestResult { is_prime: Some(true) }
}

/// Whether `n` is prime, decided by running the six stages in order against
/// a fresh context and returning the verdict of the first stage that reaches
/// one.
pub fn is_prime(n: &TestInput) -> (res: bool)
    requires
        valid_candidate(n),
    ensures
        res == pipeline_verdict(n@),
        res == prime(n@),
{
    proof {
        lemma_pipeline_decides_primality(n@);
    }
    let mut context = Context { r: 0 };
    if let Some(verdict) = test1(n, &mut context).is_prime {
        return verdict;
    }
    if let Some(verdict) = test2(n, &mut context).is_prime {
        return verdict;
    }
    if let Some(verdict) = test3(n, &mut context).is_prime {
        return verdict;
    }
    if let Some(verdict) = test4(n, &mut context).is_prime {
        return verdict;
    }
    if let Some(verdict) = test5(n, &mut context).is_prime {
        return verdict;
    }
    match test6(n, &mut context).is_prime {
        Some(verdict) => verdict,
        None => unreached(),
    }
}

/// Whether `n` is prime, with the three searches of the pipeline left to the
/// caller: `finds_root` is to say whether the first stage rejects `n`,
/// `finds_witness` is to find the order witness, and `finds_factor` is to say
/// whether the third stage rejects `n` for that witness. Each is called at
/// most once, in this order, and none after the verdict is reached. A caller
/// with a thread pool can hand the items of each search out to it.
pub fn is_prime_with<P, W, F>(
    n: &TestInput,
    finds_root: P,
    finds_witness: W,
    finds_factor: F,
) -> (res: bool) where
    P: FnOnce(&BigNat) -> bool,
    W: FnOnce(&BigNat) -> u128,
    F: FnOnce(&BigNat, u128) -> bool,

    requires
        n@ >= 2,
        call_requires(finds_root, (n,)),
        forall|found: bool|
            call_ensures(finds_root, (n,), found) ==> found == stage1_rejects(n@),
        call_requires(finds_witness, (n,)),
        forall|r: u128| call_ensures(finds_witness, (n,), r) ==> r == order_witness(n@),
        forall|r: u128| call_requires(finds_factor, (n, r)),
        forall|r: u128, found: bool|
            call_ensures(finds_factor, (n, r), found) ==> found == stage3_rejects(n@, r as nat),
    ensures
        res == pipeline_verdict(n@),
        res == prime(n@),
{
    proof {
        lemma_pipeline_decides_primality(n@);
    }
    if finds_root(n) {
        return false;
    }
    let mut context = Context { r: finds_witness(n) };
    if finds_factor(n, context.r) {
        return false;
    }
    if let Some(verdict) = test4(n, &mut context).is_prime {
        return verdict;
    }
    if let Some(verdict) = test5(n, &mut context).is_prime {
        return verdict;
    }
    match test6(n, &mut context).is_prime {
        Some(verdict) => verdict,
        None => unreached(),
    }
}

} // verus!
