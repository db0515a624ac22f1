//! Arbitrary-precision natural numbers as little-endian sequences of 64-bit
//! limbs, and the arithmetic the primality test needs on them.

use malachite::base::num::arithmetic::traits::{CheckedRoot, Gcd, Mod, ModPow};
use malachite::base::num::logic::traits::SignificantBits;
use malachite::Natural;
use vstd::arithmetic::power::pow;
use vstd::arithmetic::power2::*;
use vstd::prelude::*;

use crate::number_theory::{floor_log2, is_gcd, lemma_floor_log2_bounds};

verus! {

/// The weight of one limb position: `2^64`.
pub open spec fn limb_base() -> nat {
    0x1_0000_0000_0000_0000
}

/// The number that a little-endian limb sequence denotes:
/// `limbs[0] + 2^64 * limbs[1] + 2^128 * limbs[2] + ...`.
pub open spec fn limbs_value(limbs: Seq<u64>) -> nat
    decreases limbs.len(),
{
    if limbs.len() == 0 {
        0
    } else {
        limbs[0] as nat + limb_base() * limbs_value(limbs.drop_first())
    }
}

/// A natural number of any size.
///
/// `limbs` holds the number in base `2^64`, least significant limb first.
/// Every limb sequence is a valid number; high zero limbs do not change it.
#[derive(Debug)]
pub struct BigNat {
    pub limbs: Vec<u64>,
}

impl View for BigNat {
    type V = nat;

    open spec fn view(&self) -> nat {
        limbs_value(self.limbs@)
    }
}

/// A sequence of `len` limbs denotes a number below `2^(64 * len)`.
pub proof fn lemma_limbs_value_bound(limbs: Seq<u64>)
    ensures
        limbs_value(limbs) < pow2(64 * limbs.len()),
    decreases limbs.len(),
{
    if limbs.len() == 0 {
        lemma2_to64();
    } else {
        let rest = limbs.drop_first();
        lemma_limbs_value_bound(rest);
        lemma2_to64_rest();
        lemma_pow2_adds(64, 64 * rest.len());
        assert(64 + 64 * rest.len() == 64 * limbs.len());
        assert(limb_base() * limbs_value(rest) <= limb_base() * (pow2(64 * rest.len()) - 1))
            by (nonlinear_arith)
            requires
                limbs_value(rest) <= pow2(64 * rest.len()) - 1,
        ;
        assert(limb_base() * (pow2(64 * rest.len()) - 1) == limb_base() * pow2(64 * rest.len())
            - limb_base()) by (nonlinear_arith);
    }
}

/// The limb sequence has no zero limb at its high end. Each number has just
/// one such sequence.
pub open spec fn canonical(limbs: Seq<u64>) -> bool {
    limbs.len() == 0 || limbs.last() != 0
}

/// A canonical sequence of `len > 0` limbs denotes a number of at least
/// `2^(64 * (len - 1))`.
pub proof fn lemma_canonical_value_bound(limbs: Seq<u64>)
    requires
        canonical(limbs),
        limbs.len() > 0,
    ensures
        limbs_value(limbs) >= pow2((64 * (limbs.len() - 1)) as nat),
    decreases limbs.len(),
{
    let rest = limbs.drop_first();
    if rest.len() == 0 {
        lemma2_to64();
        assert(limbs[0] == limbs.last());
    } else {
        assert(rest.last() == limbs.last());
        lemma_canonical_value_bound(rest);
        lemma2_to64_rest();
        let below: nat = (64 * (rest.len() - 1)) as nat;
        lemma_pow2_adds(64, below);
        assert(64 + below == 64 * (limbs.len() - 1));
        assert(limb_base() * limbs_value(rest) >= limb_base() * pow2(below)) by (nonlinear_arith)
            requires
                limbs_value(rest) >= pow2(below),
        ;
    }
}

/// The floor of the binary logarithm of a number is below the number of bits
/// that its limbs hold.
pub proof fn lemma_log2_below_capacity(limbs: Seq<u64>)
    requires
        limbs_value(limbs) >= 1,
    ensures
        floor_log2(limbs_value(limbs)) < 64 * limbs.len(),
{
    let n = limbs_value(limbs);
    lemma_limbs_value_bound(limbs);
    lemma_floor_log2_bounds(n);
    if floor_log2(n) > 64 * limbs.len() {
        lemma_pow2_strictly_increases(64 * limbs.len(), floor_log2(n));
    }
}

impl BigNat {
    /// The number `value`, in one limb.
    pub fn from_u64(value: u64) -> (res: BigNat)
        ensures
            res@ == value,
            res.limbs@ == seq![value],
    {
        let mut limbs: Vec<u64> = Vec::new();
        limbs.push(value);
        proof {
            assert(limbs@.drop_first() =~= Seq::<u64>::empty());
            reveal_with_fuel(limbs_value, 2);
        }
        BigNat { limbs }
    }

    /// The number `value`, in two limbs: the low 64 bits, then the high 64
    /// bits.
    pub fn from_u128(value: u128) -> (res: BigNat)
        ensures
            res@ == value,
            res.limbs@ == seq![
                (value % 0x1_0000_0000_0000_0000) as u64,
                (value / 0x1_0000_0000_0000_0000) as u64,
            ],
    {
        let low: u64 = (value % 0x1_0000_0000_0000_0000) as u64;
        let high: u64 = (value / 0x1_0000_0000_0000_0000) as u64;
        let mut limbs: Vec<u64> = Vec::new();
        limbs.push(low);
        limbs.push(high);
        proof {
            let tail = limbs@.drop_first();
            assert(tail.len() == 1 && tail[0] == high);
            assert(tail.drop_first() =~= Seq::<u64>::empty());
            reveal_with_fuel(limbs_value, 3);
        }
        BigNat { limbs }
    }
}

/// The most limbs for which the bit length of a number is certain to fit in
/// 64 bits.
pub open spec fn limb_count_limit() -> nat {
    0x0400_0000_0000_0000
}

/// Calls `significant_bits` of `malachite::Natural`: the number of bits
/// needed to write `n`, which is 0 for zero and otherwise one more than the
/// floor of the base-2 logarithm of `n`. Trusted, not proved.
#[verifier::external_body]
pub(crate) fn natural_significant_bits(n: &BigNat) -> (bits: u64)
    requires
        n.limbs@.len() < limb_count_limit(),
    ensures
        n@ == 0 ==> bits == 0,
        n@ > 0 ==> bits > 0 && pow2((bits - 1) as nat) <= n@ < pow2(bits as nat),
{
    Natural::from_limbs_asc(&n.limbs).significant_bits()
}

/// Calls `checked_root` of `malachite::Natural`: the exact `exp`-th root of
/// `n` where `n` is a perfect `exp`-th power, and `None` where it is not.
/// The outside function panics on a zero exponent, and on one that does not
/// fit in a `usize`. Trusted, not proved.
#[verifier::external_body]
pub(crate) fn natural_checked_root(n: &BigNat, exp: u64) -> (root: Option<BigNat>)
    requires
        0 < exp <= usize::MAX,
    ensures
        match root {
            Some(x) => pow(x@ as int, exp as nat) == n@,
            None => forall|a: nat| #[trigger] pow(a as int, exp as nat) != n@,
        },
{
    let root = (&Natural::from_limbs_asc(&n.limbs)).checked_root(exp);
    root.map(|x| BigNat { limbs: x.into_limbs_asc() })
}

/// Calls `mod_op` of `malachite::Natural`: the remainder of `n` divided by
/// `m`. The outside function panics on a zero divisor. Trusted, not proved.
#[verifier::external_body]
pub(crate) fn natural_mod(n: &BigNat, m: &BigNat) -> (rem: BigNat)
    requires
        m@ > 0,
    ensures
        rem@ == n@ % m@,
{
    let x = Natural::from_limbs_asc(&n.limbs);
    let y = Natural::from_limbs_asc(&m.limbs);
    BigNat { limbs: (&x).mod_op(&y).into_limbs_asc() }
}

/// Calls `mod_pow` of `malachite::Natural`: `base` raised to `exp`, reduced
/// modulo `m`. The outside function panics unless `base` is already reduced
/// modulo `m`. Trusted, not proved.
#[verifier::external_body]
pub(crate) fn natural_mod_pow(base: &BigNat, exp: &BigNat, m: &BigNat) -> (res: BigNat)
    requires
        base@ < m@,
    ensures
        res@ == pow(base@ as int, exp@) % (m@ as int),
{
    let x = Natural::from_limbs_asc(&base.limbs);
    let e = Natural::from_limbs_asc(&exp.limbs);
    let y = Natural::from_limbs_asc(&m.limbs);
    BigNat { limbs: (&x).mod_pow(&e, &y).into_limbs_asc() }
}

/// Calls `gcd` of `malachite::Natural`: the greatest common divisor of `a`
/// and `b`, greatest in the divisibility order. Trusted, not proved.
#[verifier::external_body]
pub(crate) fn natural_gcd(a: &BigNat, b: &BigNat) -> (g: BigNat)
    ensures
        is_gcd(a@, b@, g@),
{
    let x = Natural::from_limbs_asc(&a.limbs);
    let y = Natural::from_limbs_asc(&b.limbs);
    BigNat { limbs: (&x).gcd(&y).into_limbs_asc() }
}

/// Compares two `malachite::Natural` values with `<=`. Trusted, not proved.
#[verifier::external_body]
pub(crate) fn natural_le(a: &BigNat, b: &BigNat) -> (res: bool)
    ensures
        res == (a@ <= b@),
{
    Natural::from_limbs_asc(&a.limbs) <= Natural::from_limbs_asc(&b.limbs)
}

/// Compares a `malachite::Natural` with a `u128` by `<=`. Trusted, not
/// proved.
#[verifier::external_body]
pub(crate) fn natural_le_u128(a: &BigNat, b: u128) -> (res: bool)
    ensures
        res == (a@ <= b),
{
    Natural::from_limbs_asc(&a.limbs) <= b
}

/// Adds two `malachite::Natural` values. Trusted, not proved.
#[verifier::external_body]
pub(crate) fn natural_add(a: &BigNat, b: &BigNat) -> (sum: BigNat)
    ensures
        sum@ == a@ + b@,
{
    let x = Natural::from_limbs_asc(&a.limbs);
    let y = Natural::from_limbs_asc(&b.limbs);
    BigNat { limbs: (&x + &y).into_limbs_asc() }
}

/// Subtracts one `malachite::Natural` from another. The outside function
/// panics where the result would be negative. Trusted, not proved.
#[verifier::external_body]
pub(crate) fn natural_sub(a: &BigNat, b: &BigNat) -> (diff: BigNat)
    requires
        b@ <= a@,
    ensures
        diff@ == a@ - b@,
{
    let x = Natural::from_limbs_asc(&a.limbs);
    let y = Natural::from_limbs_asc(&b.limbs);
    BigNat { limbs: (&x - &y).into_limbs_asc() }
}

/// Multiplies two `malachite::Natural` values. Trusted, not proved.
#[verifier::external_body]
pub(crate) fn natural_mul(a: &BigNat, b: &BigNat) -> (product: BigNat)
    ensures
        product@ == a@ * b@,
{
    let x = Natural::from_limbs_asc(&a.limbs);
    let y = Natural::from_limbs_asc(&b.limbs);
    BigNat { limbs: (&x * &y).into_limbs_asc() }
}

/// Divides one `malachite::Natural` by another, rounding down. The outside
/// function panics on a zero divisor. Trusted, not proved.
#[verifier::external_body]
pub(crate) fn natural_div(a: &BigNat, b: &BigNat) -> (quotient: BigNat)
    requires
        b@ > 0,
    ensures
        quotient@ == a@ / b@,
{
    let x = Natural::from_limbs_asc(&a.limbs);
    let y = Natural::from_limbs_asc(&b.limbs);
    BigNat { limbs: (&x / &y).into_limbs_asc() }
}

} // verus!
