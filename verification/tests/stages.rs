//! The single stages and the arithmetic they rest on, on chosen values.

use aks_primality_test::natural::BigNat;
use aks_primality_test::primality_check::{
    calculate_log2, has_order_above, has_root, has_trivial_residue, shares_proper_factor, test1,
    test3, test4, test5, test6, Context,
};

fn with_witness(r: u128) -> Context {
    Context { r }
}

#[test]
fn log2_of_small_numbers() {
    assert_eq!(calculate_log2(&BigNat::from_u64(1)), 0);
    assert_eq!(calculate_log2(&BigNat::from_u64(2)), 1);
    assert_eq!(calculate_log2(&BigNat::from_u64(3)), 1);
    assert_eq!(calculate_log2(&BigNat::from_u64(4)), 2);
    assert_eq!(calculate_log2(&BigNat::from_u64(1000)), 9);
    assert_eq!(calculate_log2(&BigNat::from_u64(1023)), 9);
    assert_eq!(calculate_log2(&BigNat::from_u64(1024)), 10);
}

#[test]
fn log2_at_the_limb_boundary() {
    assert_eq!(calculate_log2(&BigNat::from_u64(u64::MAX)), 63);
    assert_eq!(calculate_log2(&BigNat { limbs: vec![0, 1] }), 64);
    assert_eq!(calculate_log2(&BigNat::from_u128(u128::MAX)), 127);
    assert_eq!(calculate_log2(&BigNat { limbs: vec![0, 0, 1] }), 128);
    assert_eq!(calculate_log2(&BigNat { limbs: vec![0, 0, 1, 0] }), 128);
}

#[test]
fn from_u128_splits_into_two_limbs() {
    let n = BigNat::from_u128((7u128 << 64) + 5);
    assert_eq!(n.limbs, vec![5, 7]);
    assert_eq!(BigNat::from_u64(9).limbs, vec![9]);
}

#[test]
fn exact_roots() {
    assert!(has_root(&BigNat::from_u64(8), 3));
    assert!(!has_root(&BigNat::from_u64(8), 2));
    assert!(has_root(&BigNat::from_u64(1024), 10));
    assert!(has_root(&BigNat::from_u64(1024), 5));
    assert!(has_root(&BigNat::from_u64(1024), 2));
    assert!(!has_root(&BigNat::from_u64(1024), 3));
    assert!(has_root(&BigNat::from_u64(999), 1));
    assert!(!has_root(&BigNat::from_u64(999), 3));
    assert!(has_root(&BigNat::from_u64(1000), 3));
    assert!(!has_root(&BigNat::from_u64(1001), 3));
}

#[test]
fn first_stage_rejects_perfect_powers() {
    for n in [4u64, 8, 9, 16, 25, 27, 32, 36, 121, 125, 128, 243, 961, 1000] {
        let result = test1(&BigNat::from_u64(n), &mut with_witness(0));
        assert_eq!(result.is_prime, Some(false), "n = {n}");
    }
}

#[test]
fn first_stage_passes_everything_else() {
    for n in [2u64, 3, 5, 6, 7, 10, 12, 15, 24, 31, 99, 341, 997, 999] {
        let result = test1(&BigNat::from_u64(n), &mut with_witness(0));
        assert_eq!(result.is_prime, None, "n = {n}");
    }
}

#[test]
fn first_stage_has_no_exponent_to_try_below_four() {
    assert_eq!(test1(&BigNat::from_u64(2), &mut with_witness(0)).is_prime, None);
    assert_eq!(test1(&BigNat::from_u64(3), &mut with_witness(0)).is_prime, None);
}

#[test]
fn first_stage_around_powers_of_two() {
    for exponent in 2..=40u32 {
        let power = 1u64 << exponent;
        assert_eq!(
            test1(&BigNat::from_u64(power), &mut with_witness(0)).is_prime,
            Some(false),
            "2^{exponent}"
        );
    }
    // 2^31 - 1 and 2^61 - 1 are primes; 2^32 + 1 = 641 * 6700417.
    for n in [(1u64 << 31) - 1, (1 << 61) - 1, (1 << 32) + 1] {
        assert_eq!(test1(&BigNat::from_u64(n), &mut with_witness(0)).is_prime, None, "n = {n}");
    }
}

#[test]
fn proper_common_factors() {
    let n = BigNat::from_u64(12);
    assert!(!shares_proper_factor(&n, 0));
    assert!(!shares_proper_factor(&n, 1));
    assert!(shares_proper_factor(&n, 2));
    assert!(shares_proper_factor(&n, 3));
    assert!(!shares_proper_factor(&n, 5));
    assert!(shares_proper_factor(&n, 8));
    assert!(shares_proper_factor(&n, 9));
    // gcd(12, 12) and gcd(12, 24) are 12 itself
    assert!(!shares_proper_factor(&n, 12));
    assert!(!shares_proper_factor(&n, 24));
    assert!(shares_proper_factor(&n, 30));
}

#[test]
fn third_stage_looks_below_the_witness_only() {
    let n = BigNat::from_u64(35);
    assert_eq!(test3(&n, &mut with_witness(0)).is_prime, None);
    assert_eq!(test3(&n, &mut with_witness(1)).is_prime, None);
    // 5 is the first number that shares a factor with 35
    assert_eq!(test3(&n, &mut with_witness(5)).is_prime, None);
    assert_eq!(test3(&n, &mut with_witness(6)).is_prime, Some(false));
    assert_eq!(test3(&n, &mut with_witness(100)).is_prime, Some(false));
}

#[test]
fn third_stage_passes_primes() {
    let n = BigNat::from_u64(37);
    assert_eq!(test3(&n, &mut with_witness(36)).is_prime, None);
    assert_eq!(test3(&n, &mut with_witness(37)).is_prime, None);
    assert_eq!(test3(&n, &mut with_witness(200)).is_prime, None);
}

#[test]
fn fourth_stage_compares_with_the_witness() {
    let n = BigNat::from_u64(29);
    assert_eq!(test4(&n, &mut with_witness(28)).is_prime, None);
    assert_eq!(test4(&n, &mut with_witness(29)).is_prime, Some(true));
    assert_eq!(test4(&n, &mut with_witness(30)).is_prime, Some(true));
    let wide = BigNat { limbs: vec![0, 0, 1] };
    assert_eq!(test4(&wide, &mut with_witness(u128::MAX)).is_prime, None);
    let narrow = BigNat::from_u128(u128::MAX);
    assert_eq!(test4(&narrow, &mut with_witness(u128::MAX)).is_prime, Some(true));
    assert_eq!(test4(&narrow, &mut with_witness(u128::MAX - 1)).is_prime, None);
}

#[test]
fn fifth_stage_on_small_candidates() {
    // Nothing to walk for 2 and 3; for 4 and 5 only C(n, 1) = n.
    for n in [2u64, 3, 4, 5] {
        assert_eq!(test5(&BigNat::from_u64(n), &mut with_witness(0)).is_prime, None, "n = {n}");
    }
    // C(6, 2) = 15 = 2 * 6 + 3
    assert_eq!(test5(&BigNat::from_u64(6), &mut with_witness(0)).is_prime, Some(false));
    // C(7, 1) = 7 and C(7, 2) = 21
    assert_eq!(test5(&BigNat::from_u64(7), &mut with_witness(0)).is_prime, None);
    // C(8, 2) = 28 = 3 * 8 + 4
    assert_eq!(test5(&BigNat::from_u64(8), &mut with_witness(0)).is_prime, Some(false));
    // C(9, 1) = 9, C(9, 2) = 36, C(9, 3) = 84 = 9 * 9 + 3
    assert_eq!(test5(&BigNat::from_u64(9), &mut with_witness(0)).is_prime, Some(false));
}

#[test]
fn fifth_stage_passes_primes() {
    for n in [11u64, 13, 97, 127, 997, 1009] {
        assert_eq!(test5(&BigNat::from_u64(n), &mut with_witness(0)).is_prime, None, "n = {n}");
    }
}

#[test]
fn fifth_stage_rejects_composites() {
    for n in [10u64, 15, 21, 25, 49, 341, 561, 1001] {
        let result = test5(&BigNat::from_u64(n), &mut with_witness(0));
        assert_eq!(result.is_prime, Some(false), "n = {n}");
    }
}

#[test]
fn sixth_stage_accepts() {
    assert_eq!(test6(&BigNat::from_u64(2), &mut with_witness(0)).is_prime, Some(true));
    assert_eq!(test6(&BigNat::from_u64(1000), &mut with_witness(7)).is_prime, Some(true));
}

#[test]
fn roots_beyond_one_limb() {
    // 2^192 = (2^96)^2 = (2^64)^3 = (2^48)^4
    let n = BigNat { limbs: vec![0, 0, 0, 1] };
    assert!(has_root(&n, 2));
    assert!(has_root(&n, 3));
    assert!(has_root(&n, 4));
    assert!(!has_root(&n, 5));
    assert!(has_root(&n, 192));
    assert!(!has_root(&n, 193));
    // 2^192 + 1
    let next = BigNat { limbs: vec![1, 0, 0, 1] };
    for b in 2..=192 {
        assert!(!has_root(&next, b), "b = {b}");
    }
}

#[test]
fn residues_beyond_one_limb() {
    // n = 2^64; 2^3 = 8 = 7 + 1, so n = 2^(3 * 21 + 1) leaves 2 modulo 7
    let n = BigNat { limbs: vec![0, 1] };
    assert!(!has_trivial_residue(&n, 1, 7));
    assert!(!has_trivial_residue(&n, 2, 7));
    assert!(has_trivial_residue(&n, 3, 7));
    assert!(has_order_above(&n, 7, 2));
    assert!(!has_order_above(&n, 7, 3));
    // modulo 2^100 the powers of 2^64 are 2^64 and then 0
    let modulus = 1u128 << 100;
    assert!(!has_trivial_residue(&n, 1, modulus));
    assert!(has_trivial_residue(&n, 2, modulus));
    // modulo 2^64 + 1 the number is -1: its square is 1
    let modulus = (1u128 << 64) + 1;
    assert!(!has_trivial_residue(&n, 1, modulus));
    assert!(has_trivial_residue(&n, 2, modulus));
    assert!(!has_trivial_residue(&n, 3, modulus));
}

#[test]
fn common_factors_beyond_one_limb() {
    // n = 3 * (2^64 + 13) = 3 * 2^64 + 39
    let n = BigNat { limbs: vec![39, 3] };
    assert!(shares_proper_factor(&n, 3));
    assert!(shares_proper_factor(&n, 6));
    assert!(!shares_proper_factor(&n, 5));
    assert!(!shares_proper_factor(&n, 1 << 70));
    // 2^64 + 13 itself, and twice it
    assert!(shares_proper_factor(&n, (1u128 << 64) + 13));
    assert!(shares_proper_factor(&n, (1u128 << 65) + 26));
    // n itself: the common factor is not proper
    assert!(!shares_proper_factor(&n, (3u128 << 64) + 39));
    assert_eq!(test3(&n, &mut with_witness(3)).is_prime, None);
    assert_eq!(test3(&n, &mut with_witness(4)).is_prime, Some(false));
}

#[test]
fn fifth_stage_beyond_one_limb() {
    // For n = 2^70, C(n, 2) = 2^69 * (2^70 - 1) is odd times 2^69.
    let n = BigNat { limbs: vec![0, 1 << 6] };
    assert_eq!(test5(&n, &mut with_witness(0)).is_prime, Some(false));
    // For n = 3 * (2^64 + 13), C(n, 3) is not a multiple of 3 times the rest.
    let n = BigNat { limbs: vec![39, 3] };
    assert_eq!(test5(&n, &mut with_witness(0)).is_prime, Some(false));
}
