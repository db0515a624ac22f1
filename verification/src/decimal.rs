//! Candidates written as decimal text.

use std::str::FromStr;

use malachite::Natural;
use vstd::arithmetic::power2::{lemma_pow2_strictly_increases, pow2};
use vstd::prelude::*;

use crate::natural::{canonical, lemma_canonical_value_bound, lemma_limbs_value_bound, BigNat};
use crate::number_theory::prime;
use crate::primality_check::{is_valid_candidate, valid_candidate, MAX_LIMBS};

verus! {

/// `c` is one of the characters `'0'` to `'9'`.
pub open spec fn is_digit(c: char) -> bool {
    '0' <= c <= '9'
}

/// The value of the digit `c`.
pub open spec fn digit_value(c: char) -> nat {
    (c as u32 - '0' as u32) as nat
}

/// The digits of a numeral: the text without its leading `'+'`, where it has
/// one.
pub open spec fn digits_of(text: Seq<char>) -> Seq<char> {
    if text.len() > 0 && text[0] == '+' {
        text.drop_first()
    } else {
        text
    }
}

/// `text` is a decimal numeral: one or more digits, with at most one `'+'`
/// before them. Zeros may lead.
pub open spec fn is_decimal(text: Seq<char>) -> bool {
    let digits = digits_of(text);
    &&& digits.len() > 0
    &&& forall|i: int| 0 <= i < digits.len() ==> is_digit(#[trigger] digits[i])
}

/// The number that a sequence of digits spells, most significant digit
/// first.
pub open spec fn digits_value(digits: Seq<char>) -> nat
    decreases digits.len(),
{
    if digits.len() == 0 {
        0
    } else {
        10 * digits_value(digits.drop_last()) + digit_value(digits.last())
    }
}

/// The number that a decimal numeral spells.
pub open spec fn decimal_value(text: Seq<char>) -> nat {
    digits_value(digits_of(text))
}

/// `text` spells a number that the primality test accepts: a decimal numeral
/// for a number that is at least 2 and below `2^(64 * MAX_LIMBS)`.
pub open spec fn is_candidate_text(text: Seq<char>) -> bool {
    &&& is_decimal(text)
    &&& 2 <= decimal_value(text) < pow2((64 * MAX_LIMBS) as nat)
}

/// Calls `from_str` of `malachite::Natural`, which accepts one or more of
/// the characters `'0'` to `'9'` with an optional single `'+'` before them,
/// and reads them as a decimal number. The limbs that come back have no zero
/// limb at the high end. Trusted, not proved.
#[verifier::external_body]
pub(crate) fn natural_from_str(text: &str) -> (res: Option<BigNat>)
    ensures
        res is Some <==> is_decimal(text@),
        res matches Some(n) ==> n@ == decimal_value(text@) && canonical(n.limbs@),
{
    let parsed = Natural::from_str(text).ok();
    parsed.map(|x| BigNat { limbs: x.into_limbs_asc() })
}

/// Reads a candidate for the primality test from decimal text. `None` where
/// the text is no decimal numeral, or spells a number below 2 or too large
/// for the test.
pub fn parse_candidate(text: &str) -> (res: Option<BigNat>)
    ensures
        res is Some <==> is_candidate_text(text@),
        res matches Some(n) ==> {
            &&& n@ == decimal_value(text@)
            &&& valid_candidate(&n)
            &&& canonical(n.limbs@)
        },
{
    match natural_from_str(text) {
        Some(n) => {
            proof {
                lemma_limbs_value_bound(n.limbs@);
                if n.limbs@.len() > MAX_LIMBS {
                    lemma_canonical_value_bound(n.limbs@);
                    if n.limbs@.len() - 1 > MAX_LIMBS {
                        lemma_pow2_strictly_increases(
                            (64 * MAX_LIMBS) as nat,
                            (64 * (n.limbs@.len() - 1)) as nat,
                        );
                    }
                } else if n.limbs@.len() < MAX_LIMBS {
                    lemma_pow2_strictly_increases(
                        64 * n.limbs@.len(),
                        (64 * MAX_LIMBS) as nat,
                    );
                }
            }
            if is_valid_candidate(&n) {
                Some(n)
            } else {
                None
            }
        },
        None => None,
    }
}

/// Whether the number that the decimal text `n` spells is prime. `None`
/// where the text is no decimal numeral, or spells a number below 2 or too
/// large for the test.
pub fn is_prime(n: &str) -> (res: Option<bool>)
    ensures
        res == (if is_candidate_text(n@) {
            Some(prime(decimal_value(n@)))
        } else {
            None
        }),
{
    match parse_candidate(n) {
        Some(candidate) => Some(crate::primality_check::is_prime(&candidate)),
        None => None,
    }
}

} // verus!
