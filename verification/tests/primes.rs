use pubcrypt::modexp::{mod_exp, Num};
use pubcrypt::primes::{
    attempts_for, candidate_with_root, check_random_witnesses, is_prime, is_root_certified,
    is_witness, pick_random_prime, pick_random_with_root, range_contains_known_prime, PrimeError,
    ROOT,
};
use rand::{rngs::StdRng, SeedableRng};

fn is_prime_by_division(n: Num) -> bool {
    if n < 2 {
        return false;
    }
    let mut d = 2;
    while d * d <= n {
        if n % d == 0 {
            return false;
        }
        d += 1;
    }
    true
}

#[test]
fn test_check_witness() {
    assert_eq!(is_witness(221, 174), false);
    assert_eq!(is_witness(221, 137), true);
    assert_eq!(is_witness(252601, 85132), true);
    assert_eq!(is_witness(3057601, 99908), true);
    assert_eq!(is_witness(104717, 96152), false);
    assert_eq!(is_witness(577757, 314997), false);
    assert_eq!(is_witness(101089, 5), false);
    assert_eq!(is_witness(280001, 105532), false);
    assert_eq!(is_witness(95721889, 21906436), true);
}

#[test]
fn test_pick_random() {
    const ITERATIONS: usize = 100;
    const MIN: Num = (u32::MAX as Num) + 1;
    const MAX: Num = MIN + u32::MAX as Num;
    let mut rng = StdRng::from_entropy();

    for _ in 0..ITERATIONS {
        let (prime, _) = pick_random_with_root(MIN, MAX, &mut rng).unwrap();
        assert!(prime >= MIN);
        assert!(prime <= MAX);
        assert!(is_prime(prime, &mut rng));
    }
}

#[test]
fn witness_test_answers_false_outside_odd_numbers_from_three() {
    for val in [0, 1, 2, 3, 100] {
        assert_eq!(is_witness(0, val), false);
        assert_eq!(is_witness(1, val), false);
        assert_eq!(is_witness(2, val), false);
        assert_eq!(is_witness(4, val), false);
        assert_eq!(is_witness(Num::MAX - 1, val), false);
    }
}

#[test]
fn primes_have_no_witness_among_their_residues() {
    for n in [3 as Num, 5, 7, 11, 13, 97, 7919] {
        for val in 1..n {
            assert_eq!(is_witness(n, val), false, "{} against {}", val, n);
        }
    }
}

#[test]
fn strong_liars_and_witnesses_of_a_pseudoprime() {
    // 2047 = 23 * 89 passes the test to the base 2 and fails it to the base 3
    assert_eq!(is_witness(2047, 2), false);
    assert_eq!(is_witness(2047, 3), true);
    assert_eq!(is_witness(9, 2), true);
}

#[test]
fn random_witnesses_are_found_for_composites_only() {
    let mut rng = StdRng::seed_from_u64(1);
    for n in 0..2000 as Num {
        let found = check_random_witnesses(n, 25, &mut rng);
        if found {
            assert!(!is_prime_by_division(n), "{}", n);
            assert!(n >= 5 && n % 2 == 1);
        }
    }
    // no trials, no witness
    assert_eq!(check_random_witnesses(221, 0, &mut rng), false);
    // nothing to draw from
    assert_eq!(check_random_witnesses(3, 25, &mut rng), false);
    assert_eq!(check_random_witnesses(4, 25, &mut rng), false);
    // a composite with many witnesses
    assert_eq!(check_random_witnesses(221, 25, &mut rng), true);
}

#[test]
fn is_prime_agrees_with_trial_division() {
    let mut rng = StdRng::seed_from_u64(2);
    for n in 0..5000 as Num {
        assert_eq!(is_prime(n, &mut rng), n != 2 && is_prime_by_division(n), "{}", n);
    }
    assert!(is_prime(4294967311, &mut rng));
    assert!(is_prime(18446744073709551557, &mut rng));
    assert!(!is_prime(18446744073709551615, &mut rng));
    assert!(!is_prime(4294967297, &mut rng));
}

#[test]
fn is_prime_draws_its_witnesses_from_the_whole_range() {
    // 2047 is a strong pseudoprime to the base 2, the low end of the range
    let mut rng = StdRng::seed_from_u64(3);
    for _ in 0..20 {
        assert!(!is_prime(2047, &mut rng));
    }
}

#[test]
fn oracle_follows_bertrand_below_25() {
    assert_eq!(range_contains_known_prime(3, 5), false);
    assert_eq!(range_contains_known_prime(3, 6), true);
    assert_eq!(range_contains_known_prime(24, 47), false);
    assert_eq!(range_contains_known_prime(24, 48), true);
}

#[test]
fn oracle_follows_nagura_from_25() {
    assert_eq!(range_contains_known_prime(25, 29), false);
    assert_eq!(range_contains_known_prime(25, 30), true);
    assert_eq!(range_contains_known_prime(26, 31), false);
    assert_eq!(range_contains_known_prime(26, 32), true);
    assert_eq!(range_contains_known_prime(3274, 3928), false);
    assert_eq!(range_contains_known_prime(3274, 3929), true);
}

#[test]
fn oracle_follows_dusart_from_3275() {
    assert_eq!(range_contains_known_prime(3275, 3303), false);
    assert_eq!(range_contains_known_prime(3275, 3304), true);
    assert_eq!(range_contains_known_prime(4096, 4125), false);
    assert_eq!(range_contains_known_prime(4096, 4126), true);
    assert_eq!(range_contains_known_prime(89692, 90056), false);
    assert_eq!(range_contains_known_prime(89692, 90057), true);
}

#[test]
fn oracle_follows_dusart_from_89693() {
    assert_eq!(range_contains_known_prime(89693, 89759), false);
    assert_eq!(range_contains_known_prime(89693, 89760), true);
    assert_eq!(range_contains_known_prime(1 << 32, 4295364483), false);
    assert_eq!(range_contains_known_prime(1 << 32, 4295364484), true);
    assert_eq!(range_contains_known_prime(1 << 63, 9223483814289549643), false);
    assert_eq!(range_contains_known_prime(1 << 63, 9223483814289549644), true);
    // the bound lies beyond the greatest number
    assert_eq!(range_contains_known_prime(Num::MAX, Num::MAX), false);
    assert_eq!(range_contains_known_prime(Num::MAX - 1, Num::MAX), false);
}

#[test]
fn oracle_never_claims_a_range_without_primes() {
    for min in 3..3000 as Num {
        let mut max = min;
        while !is_prime_by_division(max) {
            assert_eq!(range_contains_known_prime(min, max), false, "{}..={}", min, max);
            max += 1;
        }
    }
}

#[test]
fn attempts_are_ten_for_each_number_of_the_range() {
    assert_eq!(attempts_for(24, 28, false), 50);
    assert_eq!(attempts_for(24, 28, true), 50);
    assert_eq!(attempts_for(3, 5, false), 30);
    assert_eq!(attempts_for(7, 7, false), 10);
    // a range from below 3 counts all its numbers
    assert_eq!(attempts_for(0, 4, false), 50);
    assert_eq!(attempts_for(1 << 32, (1 << 32) + 99, true), 1000);
}

#[test]
fn attempts_are_not_counted_where_a_prime_is_known() {
    assert_eq!(attempts_for(24, 47, false), 240);
    assert_eq!(attempts_for(24, 48, false), Num::MAX);
    assert_eq!(attempts_for(0, 6, false), Num::MAX);
    assert_eq!(attempts_for(1 << 32, 1 << 33, false), Num::MAX);
    // a search with a root counts all the same
    assert_eq!(attempts_for(24, 48, true), 250);
    assert_eq!(attempts_for(1 << 32, 1 << 33, true), 42949672970);
}

#[test]
fn attempts_saturate_on_wide_ranges() {
    assert_eq!(attempts_for(0, Num::MAX, true), Num::MAX);
    assert_eq!(attempts_for(1, Num::MAX, true), Num::MAX);
    assert_eq!(attempts_for(1 << 32, Num::MAX, true), Num::MAX);
    assert_eq!(attempts_for(0, Num::MAX / 10, true), Num::MAX);
    assert_eq!(attempts_for(1, Num::MAX / 10, true), Num::MAX - 5);
}

#[test]
fn invalid_ranges_are_refused() {
    let mut rng = StdRng::seed_from_u64(4);
    assert_eq!(pick_random_prime(5, 3, &mut rng), Err(PrimeError::InvalidRange));
    assert_eq!(pick_random_prime(0, 2, &mut rng), Err(PrimeError::InvalidRange));
    assert_eq!(pick_random_prime(2, 2, &mut rng), Err(PrimeError::InvalidRange));
    assert_eq!(pick_random_prime(Num::MAX, 0, &mut rng), Err(PrimeError::InvalidRange));
    assert_eq!(pick_random_with_root(5, 3, &mut rng), Err(PrimeError::InvalidRange));
    assert_eq!(pick_random_with_root(0, 2, &mut rng), Err(PrimeError::InvalidRange));
}

#[test]
fn single_candidate_is_tested_directly() {
    let mut rng = StdRng::seed_from_u64(5);
    assert_eq!(pick_random_prime(3, 3, &mut rng), Ok(3));
    assert_eq!(pick_random_prime(7, 7, &mut rng), Ok(7));
    assert_eq!(pick_random_prime(8, 8, &mut rng), Err(PrimeError::PrimeNotFound));
    assert_eq!(pick_random_prime(9, 9, &mut rng), Err(PrimeError::PrimeNotFound));
    assert_eq!(
        pick_random_prime(18446744073709551557, 18446744073709551557, &mut rng),
        Ok(18446744073709551557)
    );
    assert_eq!(pick_random_with_root(11, 11, &mut rng), Ok((11, 2)));
    assert_eq!(pick_random_with_root(13, 13, &mut rng), Err(PrimeError::PrimeNotFound));
}

#[test]
fn ranges_without_primes_exhaust_the_attempts() {
    let mut rng = StdRng::seed_from_u64(6);
    assert_eq!(pick_random_prime(24, 28, &mut rng), Err(PrimeError::PrimeNotFound));
    assert_eq!(pick_random_prime(114, 126, &mut rng), Err(PrimeError::PrimeNotFound));
    // 13, 17, 19, 23, ..., 53 are prime, but none comes with the root
    assert_eq!(pick_random_with_root(12, 58, &mut rng), Err(PrimeError::PrimeNotFound));
}

#[test]
fn picked_primes_lie_in_the_range_and_are_prime() {
    let mut rng = StdRng::seed_from_u64(7);
    for (min, max) in [(0, 3), (0, 100), (90, 100), (1000, 1100), (3, 1 << 20), (1 << 40, 1 << 41)]
    {
        for _ in 0..20 {
            let prime = pick_random_prime(min, max, &mut rng).unwrap();
            assert!(min <= prime && prime <= max);
            assert!(is_prime_by_division(prime), "{}", prime);
        }
    }
    assert_eq!(pick_random_prime(90, 100, &mut rng), Ok(97));
}

#[test]
fn picked_roots_are_primitive() {
    let mut rng = StdRng::seed_from_u64(8);
    for _ in 0..50 {
        let (prime, root) = pick_random_with_root(0, 5000, &mut rng).unwrap();
        assert!(prime <= 5000);
        assert_eq!(root, ROOT);
        assert_eq!(prime % 24, 11);
        assert!(is_prime_by_division(prime));
        assert!(is_prime_by_division((prime - 1) / 2));
        // the order of the root is the whole of prime - 1
        let mut power = 1;
        for exponent in 1..prime - 1 {
            power = power * root % prime;
            assert_ne!(power, 1, "{}^{} mod {}", root, exponent, prime);
        }
        assert_eq!(power * root % prime, 1);
    }
}

#[test]
fn candidates_with_root_come_from_odd_draws_and_their_successors() {
    assert_eq!(candidate_with_root(0, 0), None);
    assert_eq!(candidate_with_root(11, 0), Some(11));
    assert_eq!(candidate_with_root(12, 0), Some(11));
    // the candidate of an even draw may fall below the range
    assert_eq!(candidate_with_root(12, 12), None);
    assert_eq!(candidate_with_root(13, 0), None);
    assert_eq!(candidate_with_root(35, 0), Some(35));
    assert_eq!(candidate_with_root(59, 59), Some(59));
    assert_eq!(candidate_with_root(Num::MAX, 0), None);
    assert_eq!(candidate_with_root(18446744073709551611, 0), Some(18446744073709551611));
}

#[test]
fn root_certificate_is_the_power_at_half_the_order() {
    assert_eq!(is_root_certified(11, 2), true);
    // 3 has the order 5 modulo 11
    assert_eq!(is_root_certified(11, 3), false);
    assert_eq!(is_root_certified(59, 2), true);
    // 2 is a square modulo 7
    assert_eq!(is_root_certified(7, 2), false);
    assert_eq!(is_root_certified(7, 3), true);
    // 6 is -1 modulo 7: its power at 3 is -1, but its square is 1
    assert_eq!(is_root_certified(7, 6), false);
    assert_eq!(is_root_certified(3, 2), false);
    assert_eq!(is_root_certified(5, 2), true);
    assert_eq!(is_root_certified(2, 1), false);
    assert_eq!(is_root_certified(12, 5), false);
    assert_eq!(is_root_certified(4294967387, 2), true);
    assert_eq!(mod_exp(2, (4294967387 - 1) / 2, 4294967387), 4294967386);
}
