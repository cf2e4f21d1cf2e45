use prime_gen::arith::mod_pow;
use prime_gen::batch::{record_attempt, BatchState, GenerationError, PrimeRecord, ATTEMPT_LIMIT};
use prime_gen::witness::{add_base, draw_witnesses};
use prime_gen::gost::GOSTPrimality;
use prime_gen::miller::MillerPrimality;
use prime_gen::miller_rabin::{miller_rabin_test, miller_rabin_with_bases};
use prime_gen::pocklington::PocklingtonPrimality;
use prime_gen::sieve::{sieve_of_eratosthenes, small_primes};
use rand::rngs::StdRng;
use rand::SeedableRng;

fn is_prime_by_division(n: u64) -> bool {
    if n < 2 {
        return false;
    }
    let mut d: u64 = 2;
    while d * d <= n {
        if n % d == 0 {
            return false;
        }
        d += 1;
    }
    true
}

fn pow_by_multiplication(b: u64, e: u64, m: u64) -> u64 {
    let mut r: u64 = 1 % m;
    for _ in 0..e {
        r = r * (b % m) % m;
    }
    r
}

fn all_prime_below(records: &[PrimeRecord], limit: u64) {
    for rec in records {
        assert!(is_prime_by_division(rec.value), "{} is not prime", rec.value);
        assert!(rec.value <= limit, "{} exceeds {}", rec.value, limit);
    }
}

#[test]
fn mod_pow_small_example() {
    assert_eq!(mod_pow(7, 13, 11), 2);
}

#[test]
fn mod_pow_modulus_one_is_zero() {
    assert_eq!(mod_pow(5, 3, 1), 0);
    assert_eq!(mod_pow(0, 0, 1), 0);
}

#[test]
fn mod_pow_zero_exponent_is_one() {
    assert_eq!(mod_pow(123, 0, 7), 1);
}

#[test]
fn mod_pow_matches_repeated_multiplication() {
    for m in 2..30u64 {
        for b in 0..20u64 {
            for e in 0..15u64 {
                let r = mod_pow(b, e, m);
                assert!(r < m);
                assert_eq!(r, pow_by_multiplication(b, e, m), "b={} e={} m={}", b, e, m);
            }
        }
    }
}

#[test]
fn mod_pow_wide_operands_do_not_overflow() {
    let m = u64::MAX;
    assert_eq!(mod_pow(m - 1, 2, m), 1);
    assert_eq!(mod_pow(m - 1, 3, m), m - 1);
    // 2^64 = 1 + (2^64 - 1)
    assert_eq!(mod_pow(2, 64, m), 1);
}

#[test]
fn sieve_up_to_thirty() {
    assert_eq!(sieve_of_eratosthenes(30), vec![2, 3, 5, 7, 11, 13, 17, 19, 23, 29]);
}

#[test]
fn sieve_below_two_is_empty() {
    assert!(sieve_of_eratosthenes(0).is_empty());
    assert!(sieve_of_eratosthenes(1).is_empty());
    assert_eq!(sieve_of_eratosthenes(2), vec![2]);
}

#[test]
fn sieve_includes_prime_bound() {
    assert_eq!(sieve_of_eratosthenes(29).last(), Some(&29));
    assert_eq!(sieve_of_eratosthenes(49), sieve_of_eratosthenes(47));
}

#[test]
fn sieve_twice_gives_same_output() {
    assert_eq!(sieve_of_eratosthenes(1000), sieve_of_eratosthenes(1000));
}

#[test]
fn sieve_matches_trial_division() {
    let primes = sieve_of_eratosthenes(2000);
    let expected: Vec<u64> = (0..=2000u64).filter(|&k| is_prime_by_division(k)).collect();
    assert_eq!(primes, expected);
}

#[test]
fn small_prime_pool() {
    let pool = small_primes();
    assert_eq!(pool.len(), 95);
    assert_eq!(pool[0], 2);
    assert_eq!(*pool.last().unwrap(), 499);
}

#[test]
fn miller_rabin_fixed_cases() {
    let none: Vec<u64> = Vec::new();
    assert!(miller_rabin_with_bases(2, &none));
    assert!(miller_rabin_with_bases(3, &none));
    assert!(!miller_rabin_with_bases(0, &none));
    assert!(!miller_rabin_with_bases(1, &none));
    assert!(!miller_rabin_with_bases(4, &none));
    assert!(!miller_rabin_with_bases(1000, &none));
}

#[test]
fn miller_rabin_bases_two_and_three_classify_below_thousand() {
    let bases = vec![2, 3];
    for n in 0..1000u64 {
        assert_eq!(miller_rabin_with_bases(n, &bases), is_prime_by_division(n), "n={}", n);
    }
}

#[test]
fn miller_rabin_strong_pseudoprime_to_base_two() {
    // 2047 = 23 * 89 passes base 2 and is caught by base 3
    assert!(miller_rabin_with_bases(2047, &vec![2]));
    assert!(!miller_rabin_with_bases(2047, &vec![3]));
    assert!(!miller_rabin_with_bases(2047, &vec![2, 3]));
}

#[test]
fn miller_rabin_accepts_primes_below_thousand() {
    let mut rng = StdRng::seed_from_u64(1);
    for n in 0..1000u64 {
        if is_prime_by_division(n) {
            assert!(miller_rabin_test(n, 5, &mut rng), "prime {} rejected", n);
        }
    }
}

#[test]
fn miller_rabin_rejects_composites_below_thousand() {
    let mut rng = StdRng::seed_from_u64(2);
    for n in 0..1000u64 {
        if !is_prime_by_division(n) {
            assert!(!miller_rabin_test(n, 10, &mut rng), "composite {} accepted", n);
        }
    }
}

#[test]
fn pocklington_check_examples() {
    // 13 - 1 = 4 * 3
    assert!(PocklingtonPrimality::check(13, &vec![2], &vec![3]));
    // 2^(12/2) = 64 = 12 (mod 13), 2^(12/3) = 3 (mod 13)
    assert!(PocklingtonPrimality::check(13, &vec![2], &vec![2, 3]));
    // 3^4 = 81 = 3 (mod 13) but 3^6 = 1 (mod 13): base 3 does not escape 2
    assert!(!PocklingtonPrimality::check(13, &vec![3], &vec![2]));
    // 2^14 = 4 (mod 15): Fermat fails
    assert!(!PocklingtonPrimality::check(15, &vec![2], &vec![7]));
    // no bases: nothing escapes
    assert!(!PocklingtonPrimality::check(13, &Vec::new(), &vec![3]));
}

#[test]
fn miller_check_examples() {
    // 11 = 2 * 5 + 1
    assert!(MillerPrimality::check(11, &vec![2, 3], &vec![5]));
    // 3^2 = 9 != 1 (mod 11), but 3^5 = 1 (mod 11): factor 2 is not escaped by base 3
    assert!(!MillerPrimality::check(11, &vec![3], &vec![2]));
    assert!(MillerPrimality::check(11, &vec![2], &vec![2, 5]));
    // 2^8 = 1 (mod 9)? 256 = 4 (mod 9): Fermat fails
    assert!(!MillerPrimality::check(9, &vec![2], &vec![2]));
}

#[test]
fn pocklington_batch_is_prime() {
    let mut rng = StdRng::seed_from_u64(11);
    let v = PocklingtonPrimality::generate_primes(13, 10, 10, &mut rng).unwrap();
    assert_eq!(v.len(), 10);
    all_prime_below(&v, 1 << 13);
    for rec in &v {
        assert!(rec.value >= 1 << 12, "{} has fewer than 13 bits", rec.value);
    }
}

#[test]
fn miller_batch_is_prime() {
    let mut rng = StdRng::seed_from_u64(12);
    let v = MillerPrimality::generate_primes(10, 5, 10, &mut rng).unwrap();
    assert_eq!(v.len(), 10);
    all_prime_below(&v, 1 << 10);
    for rec in &v {
        assert!(rec.value >= (1 << 8) + 1);
    }
}

#[test]
fn gost_batch_is_prime_and_distinct() {
    let mut rng = StdRng::seed_from_u64(13);
    let v = GOSTPrimality::generate_primes(10, 3, 5, &mut rng).unwrap();
    assert_eq!(v.len(), 5);
    all_prime_below(&v, 1 << 10);
    for i in 0..v.len() {
        assert!(v[i].corroborated);
        for j in 0..i {
            assert_ne!(v[i].value, v[j].value);
        }
    }
}

#[test]
fn generators_prime_at_twenty_bits() {
    let mut rng = StdRng::seed_from_u64(14);
    let v = PocklingtonPrimality::generate_primes(20, 8, 5, &mut rng).unwrap();
    all_prime_below(&v, 1 << 20);
    let v = MillerPrimality::generate_primes(20, 8, 5, &mut rng).unwrap();
    all_prime_below(&v, 1 << 20);
    let v = GOSTPrimality::generate_primes(20, 8, 5, &mut rng).unwrap();
    all_prime_below(&v, 1 << 20);
}

#[test]
fn generators_at_four_bits_terminate() {
    let mut rng = StdRng::seed_from_u64(15);
    for _ in 0..3 {
        match PocklingtonPrimality::generate_primes(4, 1, 1, &mut rng) {
            Ok(v) => assert_eq!(v.len(), 1),
            Err(e) => assert_eq!(e, GenerationError::SearchExhausted),
        }
        match MillerPrimality::generate_primes(4, 1, 1, &mut rng) {
            Ok(v) => {
                assert_eq!(v.len(), 1);
                all_prime_below(&v, 16);
            }
            Err(e) => assert_eq!(e, GenerationError::SearchExhausted),
        }
        match GOSTPrimality::generate_primes(4, 1, 1, &mut rng) {
            Ok(v) => {
                assert_eq!(v.len(), 1);
                all_prime_below(&v, 16);
            }
            Err(e) => assert_eq!(e, GenerationError::SearchExhausted),
        }
    }
}

#[test]
fn invalid_parameters_fail_fast() {
    let mut rng = StdRng::seed_from_u64(16);
    assert_eq!(PocklingtonPrimality::generate_primes(3, 5, 5, &mut rng), Err(GenerationError::InvalidParameters));
    assert_eq!(PocklingtonPrimality::generate_primes(10, 0, 5, &mut rng), Err(GenerationError::InvalidParameters));
    assert_eq!(MillerPrimality::generate_primes(10, 5, 0, &mut rng), Err(GenerationError::InvalidParameters));
    assert_eq!(MillerPrimality::generate_primes(63, 5, 1, &mut rng), Err(GenerationError::InvalidParameters));
    assert_eq!(GOSTPrimality::generate_primes(0, 5, 1, &mut rng), Err(GenerationError::InvalidParameters));
    assert_eq!(GOSTPrimality::generate_primes(10, 0, 1, &mut rng), Err(GenerationError::InvalidParameters));
}

#[test]
fn too_many_witnesses_exhaust_the_search() {
    // at 4 bits every Pocklington candidate is below 16: twenty distinct bases cannot be found
    let mut rng = StdRng::seed_from_u64(17);
    assert_eq!(PocklingtonPrimality::generate_primes(4, 20, 1, &mut rng), Err(GenerationError::SearchExhausted));
}

#[test]
fn gost_more_primes_than_exist_exhausts() {
    // only a handful of primes of this form fit in four bits
    let mut rng = StdRng::seed_from_u64(18);
    assert_eq!(GOSTPrimality::generate_primes(4, 1, 10, &mut rng), Err(GenerationError::SearchExhausted));
}

#[test]
fn gost_search_first_passing_multiplier() {
    // e = 4 gives 9 (2^8 = 4 mod 9), e = 6 gives 13: 2^12 = 1, 2^6 = 12 (mod 13)
    assert_eq!(GOSTPrimality::search(2, 8, 4), Some((13, 6)));
    // 8 / 3 = 2: p = 7, 2^6 = 1 and 2^2 = 4 (mod 7)
    assert_eq!(GOSTPrimality::search(3, 8, 4), Some((7, 2)));
    // 9 / 3 = 3 is raised to 4: p = 13, 2^4 = 3 (mod 13)
    assert_eq!(GOSTPrimality::search(3, 9, 4), Some((13, 4)));
}

#[test]
fn gost_search_without_result() {
    // 14 / 2 = 7 is raised to 8: p = 17 exceeds 2^4
    assert_eq!(GOSTPrimality::search(2, 14, 4), None);
    // every e * 31 + 1 up to 2^10 fails: 683 = 22 * 31 + 1 divides 2^22 - 1
    assert_eq!(GOSTPrimality::search(31, 512, 10), None);
}

#[test]
fn batch_step_accepts_and_resets() {
    let mut st = BatchState::new();
    assert_eq!(record_attempt(&mut st, false, 15, false, true, false), Ok(()));
    assert_eq!(record_attempt(&mut st, false, 21, false, false, false), Ok(()));
    assert_eq!((st.attempts, st.misses, st.out.len()), (1, 2, 0));
    assert_eq!(record_attempt(&mut st, true, 13, true, false, false), Ok(()));
    assert_eq!(st.out, vec![PrimeRecord { value: 13, corroborated: true, attempts: 1 }]);
    assert_eq!((st.attempts, st.misses), (0, 0));
}

#[test]
fn batch_step_running_count_is_kept() {
    let mut st = BatchState::new();
    assert_eq!(record_attempt(&mut st, false, 9, false, true, true), Ok(()));
    assert_eq!(record_attempt(&mut st, true, 7, true, false, true), Ok(()));
    assert_eq!(record_attempt(&mut st, true, 13, true, false, true), Ok(()));
    assert_eq!(st.out[1].attempts, 1);
    assert_eq!(st.attempts, 1);
}

#[test]
fn batch_step_exhausts_at_limit() {
    let mut st = BatchState::new();
    st.misses = ATTEMPT_LIMIT - 2;
    assert_eq!(record_attempt(&mut st, false, 9, false, false, false), Ok(()));
    assert_eq!(record_attempt(&mut st, false, 9, false, false, false), Err(GenerationError::SearchExhausted));
}

#[test]
fn miller_absorb_steps() {
    let mut m: u64 = 1;
    let mut fs: Vec<u64> = Vec::new();
    assert!(!MillerPrimality::absorb(&mut m, &mut fs, 3, 4));
    assert_eq!((m, fs.clone()), (3, vec![3]));
    // 9 exceeds 7 while 3 is below 4: start over
    assert!(!MillerPrimality::absorb(&mut m, &mut fs, 3, 4));
    assert_eq!((m, fs.clone()), (1, vec![]));
    let mut m: u64 = 5;
    let mut fs: Vec<u64> = vec![5];
    assert!(MillerPrimality::absorb(&mut m, &mut fs, 2, 4));
    assert_eq!((m, fs), (5, vec![5]));
}

#[test]
fn pocklington_absorb_steps() {
    let mut f: u64 = 1;
    let mut fs: Vec<u64> = Vec::new();
    assert!(!PocklingtonPrimality::absorb(&mut f, &mut fs, 3, 1, 4));
    assert_eq!((f, fs.clone()), (3, vec![3]));
    // 3 * 7 = 21 is not below 16: not taken
    assert!(!PocklingtonPrimality::absorb(&mut f, &mut fs, 7, 1, 4));
    assert_eq!((f, fs.clone()), (3, vec![3]));
    // 3 * 3 = 9 reaches 8: start over
    assert!(!PocklingtonPrimality::absorb(&mut f, &mut fs, 3, 1, 4));
    assert_eq!((f, fs.clone()), (1, vec![]));
    assert!(PocklingtonPrimality::absorb(&mut f, &mut fs, 5, 1, 4));
    assert_eq!((f, fs), (5, vec![5]));
}

#[test]
fn pocklington_multiplier_ranges() {
    assert_eq!(PocklingtonPrimality::multiplier_range(5, 4), (1, 1));
    assert_eq!(PocklingtonPrimality::multiplier_range(7, 4), (1, 1));
    // 2k * 9 + 1 in [32, 64): k = 2 or 3
    assert_eq!(PocklingtonPrimality::multiplier_range(9, 6), (2, 3));
}

#[test]
fn witness_steps() {
    let mut b = vec![2, 3];
    assert!(!add_base(&mut b, 3));
    assert!(add_base(&mut b, 4));
    assert_eq!(b, vec![2, 3, 4]);
}

#[test]
fn large_witness_sets_can_be_drawn() {
    let mut rng = StdRng::seed_from_u64(19);
    let v = draw_witnesses(&mut rng, 2, 1_000_000, 12_000).unwrap();
    assert_eq!(v.len(), 12_000);
    let mut sorted = v.clone();
    sorted.sort();
    sorted.dedup();
    assert_eq!(sorted.len(), 12_000);
}

#[test]
fn four_bit_values() {
    let mut rng = StdRng::seed_from_u64(20);
    for _ in 0..5 {
        if let Ok(v) = PocklingtonPrimality::generate_primes(4, 1, 1, &mut rng) {
            assert!(v[0].value == 11 || v[0].value == 13, "{}", v[0].value);
        }
        if let Ok(v) = MillerPrimality::generate_primes(4, 1, 1, &mut rng) {
            assert!(v[0].value == 11 || v[0].value == 13, "{}", v[0].value);
        }
        if let Ok(v) = GOSTPrimality::generate_primes(4, 1, 1, &mut rng) {
            assert!(v[0].value == 7 || v[0].value == 13, "{}", v[0].value);
        }
    }
}

#[test]
fn gost_three_four_bit_primes_exhaust() {
    let mut rng = StdRng::seed_from_u64(21);
    assert_eq!(GOSTPrimality::generate_primes(4, 1, 3, &mut rng), Err(GenerationError::SearchExhausted));
}
