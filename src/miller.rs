use vstd::prelude::*;
use vstd::arithmetic::power2::{pow2, lemma_pow2_strictly_increases, lemma_pow2_unfold, lemma2_to64, lemma2_to64_rest};
use vstd::arithmetic::div_mod::lemma_mul_mod_noop_general;
use rand::rngs::StdRng;
use crate::arith::{is_prime, mod_pow, pow_mod, two_to};
use crate::batch::{
    PrimeRecord, GenerationError, BatchState, record_attempt, MAX_BITS, ATTEMPT_LIMIT, DRAW_LIMIT, POOL_BOUND, invalid_parameters,
};
use crate::miller_rabin::{miller_rabin_test, miller_rabin_outcome};
use crate::random::random_range;
use crate::sieve::small_primes;
use crate::witness::{draw_witnesses, valid_witnesses};

verus! {

/// Prime generation by Miller's criterion: candidates `n = 2m + 1` where `m` is a
/// product of small primes.
pub struct MillerPrimality;

/// Some base `a` has `a^((n - 1) / q) != 1 (mod n)`.
pub open spec fn some_base_escapes(n: int, bases: Seq<u64>, q: int) -> bool {
    exists|i: int| 0 <= i < bases.len() && #[trigger] pow_mod(bases[i] as int, ((n - 1) / q) as nat, n) != 1
}

/// Miller's check: every base satisfies Fermat's condition, and for every tracked
/// factor some base escapes it.
pub open spec fn miller_accepts(n: int, bases: Seq<u64>, factors: Seq<u64>) -> bool {
    &&& forall|i: int| 0 <= i < bases.len() ==> #[trigger] pow_mod(bases[i] as int, (n - 1) as nat, n) == 1
    &&& forall|j: int| 0 <= j < factors.len() ==> #[trigger] some_base_escapes(n, bases, factors[j] as int)
}

/// The product of the entries of `s`.
pub open spec fn product(s: Seq<u64>) -> int
    decreases s.len(),
{
    if s.len() == 0 {
        1
    } else {
        product(s.drop_last()) * (s.last() as int)
    }
}

/// The shape of a constructed candidate: `n = 2m + 1` with `2^(bits-2) <= m < 2^(bits-1)`,
/// where `m` is the product of the tracked factors, at least one, all primes of the pool.
pub open spec fn miller_shape(n: int, factors: Seq<u64>, bits: nat) -> bool {
    &&& n % 2 == 1
    &&& factors.len() >= 1
    &&& (n - 1) / 2 == product(factors)
    &&& pow2((bits - 2) as nat) <= (n - 1) / 2 < pow2((bits - 1) as nat)
    &&& forall|j: int|
        0 <= j < factors.len() ==> is_prime(factors[j] as int) && factors[j] <= POOL_BOUND && #[trigger] (((n
            - 1) / 2) % (factors[j] as int)) == 0
}

/// Bases and factors with which `n` passed the check.
pub open spec fn miller_evidence(n: int, bases: Seq<u64>, factors: Seq<u64>, rounds: nat, bits: nat) -> bool {
    &&& valid_witnesses(bases, 2, n - 1, rounds)
    &&& miller_shape(n, factors, bits)
    &&& miller_accepts(n, bases, factors)
}

/// `n` was accepted: some witness set of `rounds` bases and some tracked factors pass.
pub open spec fn miller_certified(n: int, rounds: nat, bits: nat) -> bool {
    exists|bases: Seq<u64>, factors: Seq<u64>| #[trigger] miller_evidence(n, bases, factors, rounds, bits)
}

/// Whether some base escapes factor `q`.
fn escapes_factor(n: u64, bases: &Vec<u64>, q: u64) -> (r: bool)
    requires
        n >= 2,
        q >= 1,
    ensures
        r == some_base_escapes(n as int, bases@, q as int),
{
    let mut i: usize = 0;
    while i < bases.len()
        invariant
            n >= 2,
            q >= 1,
            i <= bases@.len(),
            forall|k: int| 0 <= k < i ==> !(#[trigger] pow_mod(bases@[k] as int, ((n - 1) / (q as int)) as nat, n as int) != 1),
        decreases bases@.len() - i,
    {
        if mod_pow(bases[i], (n - 1) / q, n) != 1 {
            assert(pow_mod(bases@[i as int] as int, ((n - 1) / (q as int)) as nat, n as int) != 1);
            return true;
        }
        i = i + 1;
    }
    false
}

impl MillerPrimality {
    /// Miller's check of `n` with the given bases and tracked factors.
    pub fn check(n: u64, bases: &Vec<u64>, factors: &Vec<u64>) -> (r: bool)
        requires
            n >= 2,
            forall|j: int| 0 <= j < factors@.len() ==> #[trigger] factors@[j] >= 1,
        ensures
            r == miller_accepts(n as int, bases@, factors@),
    {
        let mut i: usize = 0;
        while i < bases.len()
            invariant
                n >= 2,
                i <= bases@.len(),
                forall|k: int| 0 <= k < i ==> #[trigger] pow_mod(bases@[k] as int, (n - 1) as nat, n as int) == 1,
            decreases bases@.len() - i,
        {
            if mod_pow(bases[i], n - 1, n) != 1 {
                assert(!(pow_mod(bases@[i as int] as int, (n - 1) as nat, n as int) == 1));
                return false;
            }
            i = i + 1;
        }
        let mut j: usize = 0;
        while j < factors.len()
            invariant
                n >= 2,
                forall|k: int| 0 <= k < factors@.len() ==> #[trigger] factors@[k] >= 1,
                j <= factors@.len(),
                forall|k: int| 0 <= k < bases@.len() ==> #[trigger] pow_mod(bases@[k] as int, (n - 1) as nat, n as int) == 1,
                forall|k: int| 0 <= k < j ==> #[trigger] some_base_escapes(n as int, bases@, factors@[k] as int),
            decreases factors@.len() - j,
        {
            if !escapes_factor(n, bases, factors[j]) {
                return false;
            }
            j = j + 1;
        }
        true
    }

    /// One draw `p` of the construction of `m`: `p` is taken when `m * p` stays at most
    /// `2^(bits-1) - 1`; otherwise `m` is done when it reached `2^(bits-2)`, and starts
    /// over from 1 with no factors when it did not. Returns whether `m` is done.
    pub fn absorb(m: &mut u64, factors: &mut Vec<u64>, p: u64, bits: usize) -> (done: bool)
        requires
            4 <= bits <= MAX_BITS,
            1 <= *old(m) < pow2((bits - 1) as nat),
            2 <= p <= POOL_BOUND,
        ensures
            *old(m) * p < pow2((bits - 1) as nat) ==> !done && *final(m) == *old(m) * p
                && final(factors)@ == old(factors)@.push(p),
            *old(m) * p >= pow2((bits - 1) as nat) && *old(m) >= pow2((bits - 2) as nat) ==> done
                && *final(m) == *old(m) && final(factors)@ == old(factors)@,
            *old(m) * p >= pow2((bits - 1) as nat) && *old(m) < pow2((bits - 2) as nat) ==> !done
                && *final(m) == 1 && final(factors)@.len() == 0,
    {
        let lower = two_to((bits - 2) as u64);
        let top = two_to((bits - 1) as u64);
        proof {
            lemma2_to64();
            lemma2_to64_rest();
            lemma_pow2_strictly_increases((bits - 1) as nat, 62);
        }
        assert((*m as int) * (p as int) < 0x100000000000000000000) by (nonlinear_arith)
            requires
                *m < 0x4000000000000000,
                p <= 500,
        ;
        if (*m as u128) * (p as u128) >= top as u128 {
            if *m >= lower {
                return true;
            }
            *m = 1;
            factors.clear();
            false
        } else {
            *m = *m * p;
            factors.push(p);
            false
        }
    }

    /// Builds a candidate `n = 2m + 1` and the primes whose product is `m`, or gives
    /// up after `DRAW_LIMIT` draws.
    fn generate_candidate(pool: &Vec<u64>, bits: u64, rng: &mut StdRng) -> (r: Option<(u64, Vec<u64>)>)
        requires
            4 <= bits <= MAX_BITS,
            pool@.len() > 0,
            forall|i: int| 0 <= i < pool@.len() ==> is_prime(#[trigger] pool@[i] as int) && pool@[i] <= POOL_BOUND,
        ensures
            r matches Some(c) ==> c.0 >= 9 && miller_shape(c.0 as int, c.1@, bits as nat),
    {
        proof {
            lemma2_to64();
            lemma2_to64_rest();
            lemma_pow2_unfold((bits - 1) as nat);
            lemma_pow2_strictly_increases((bits - 1) as nat, 62);
            if bits > 4 {
                lemma_pow2_strictly_increases(2, (bits - 2) as nat);
            }
        }
        let mut m: u64 = 1;
        let mut factors: Vec<u64> = Vec::new();
        let mut draws: u64 = 0;
        while draws < DRAW_LIMIT
            invariant
                4 <= bits <= MAX_BITS,
                4 <= pow2((bits - 2) as nat) < pow2((bits - 1) as nat) <= 0x2000000000000000,
                pow2((bits - 1) as nat) == 2 * pow2((bits - 2) as nat),
                pool@.len() > 0,
                forall|i: int| 0 <= i < pool@.len() ==> is_prime(#[trigger] pool@[i] as int) && pool@[i] <= POOL_BOUND,
                1 <= m < pow2((bits - 1) as nat),
                m == product(factors@),
                forall|j: int|
                    0 <= j < factors@.len() ==> is_prime(#[trigger] factors@[j] as int) && factors@[j] <= POOL_BOUND
                        && (m as int) % (factors@[j] as int) == 0,
            decreases DRAW_LIMIT - draws,
        {
            draws = draws + 1;
            let idx = random_range(rng, 0, pool.len() as u64) as usize;
            let p = pool[idx];
            proof {
                assert(is_prime(pool@[idx as int] as int) && pool@[idx as int] <= POOL_BOUND);
                assert((m as int) * (p as int) >= 1) by (nonlinear_arith)
                    requires
                        m >= 1,
                        p >= 2,
                ;
            }
            let ghost old_m = m;
            let ghost old_factors = factors@;
            let done = Self::absorb(&mut m, &mut factors, p, bits as usize);
            if done {
                let n = 2 * m + 1;
                proof {
                    assert((n - 1) / 2 == m);
                    if factors@.len() == 0 {
                        assert(product(factors@) == 1);
                    }
                }
                return Some((n, factors));
            }
            proof {
                if factors@.len() == 0 {
                    assert(product(factors@) == 1);
                } else if m != 1 || factors@.len() != 0 {
                    assert(factors@ == old_factors.push(p));
                    assert(factors@.drop_last() =~= old_factors);
                    assert forall|j: int| 0 <= j < factors@.len() implies is_prime(#[trigger] factors@[j] as int)
                        && factors@[j] <= POOL_BOUND && (m as int) % (factors@[j] as int) == 0 by {
                        let q = factors@[j] as int;
                        if j < old_factors.len() {
                            assert(factors@[j] == old_factors[j]);
                            lemma_mul_mod_noop_general(old_m as int, p as int, q);
                            assert(((old_m as int) % q) * (p as int) == 0);
                        } else {
                            vstd::arithmetic::div_mod::lemma_mod_multiples_basic(old_m as int, p as int);
                        }
                    }
                }
            }
        }
        None
    }

    /// Generates `count` primes of Miller's form for bit length `bits`, each checked
    /// with a witness set of `test_count` distinct bases and corroborated by a
    /// three-round Miller-Rabin test.
    pub fn generate_primes(bits: usize, test_count: usize, count: usize, rng: &mut StdRng) -> (r: Result<
        Vec<PrimeRecord>,
        GenerationError,
    >)
        ensures
            invalid_parameters(bits as int, test_count as int, count as int) <==> r == Err::<Vec<PrimeRecord>, GenerationError>(GenerationError::InvalidParameters),
            r matches Ok(v) ==> v@.len() == count && forall|i: int|
                0 <= i < v@.len() ==> miller_certified(#[trigger] v@[i].value as int, test_count as nat, bits as nat)
                    && miller_rabin_outcome(v@[i].value as int, 3, v@[i].corroborated),
    {
        if bits < 4 || bits > MAX_BITS || test_count == 0 || count == 0 {
            return Err(GenerationError::InvalidParameters);
        }
        let pool = small_primes();
        let b = bits as u64;
        let mut state = BatchState::new();
        while state.out.len() < count
            invariant
                4 <= b <= MAX_BITS,
                b == bits,
                test_count > 0,
                count > 0,
                pool@.len() > 0,
                forall|i: int| 0 <= i < pool@.len() ==> is_prime(#[trigger] pool@[i] as int) && pool@[i] <= POOL_BOUND,
                state.out@.len() <= count,
                state.misses < ATTEMPT_LIMIT,
                forall|i: int|
                    0 <= i < state.out@.len() ==> miller_certified(#[trigger] state.out@[i].value as int, test_count as nat, bits as nat)
                        && miller_rabin_outcome(state.out@[i].value as int, 3, state.out@[i].corroborated),
            decreases count - state.out@.len(), ATTEMPT_LIMIT - state.misses,
        {
            let (n, factors) = match Self::generate_candidate(&pool, b, rng) {
                Some(c) => c,
                None => {
                    return Err(GenerationError::SearchExhausted);
                },
            };
            let bases = match draw_witnesses(rng, 2, n - 1, test_count) {
                Some(v) => v,
                None => {
                    return Err(GenerationError::SearchExhausted);
                },
            };
            proof {
                assert forall|j: int| 0 <= j < factors@.len() implies #[trigger] factors@[j] >= 1 by {
                    assert(((n - 1) / 2) % (factors@[j] as int) == 0);
                }
            }
            let accepted = Self::check(n, &bases, &factors);
            // the corroborating run on an accepted value, the one-round run on a rejected one
            let corroborated = if accepted {
                miller_rabin_test(n, 3, rng)
            } else {
                false
            };
            let weak_pass = if accepted {
                false
            } else {
                miller_rabin_test(n, 1, rng)
            };
            proof {
                if accepted {
                    assert(miller_evidence(n as int, bases@, factors@, test_count as nat, bits as nat));
                }
            }
            let ghost before = state.out@;
            match record_attempt(&mut state, accepted, n, corroborated, weak_pass, false) {
                Ok(()) => {},
                Err(_) => {
                    return Err(GenerationError::SearchExhausted);
                },
            }
            proof {
                assert forall|i: int| 0 <= i < state.out@.len() implies miller_certified(#[trigger] state.out@[i].value as int, test_count as nat, bits as nat)
                    && miller_rabin_outcome(state.out@[i].value as int, 3, state.out@[i].corroborated) by {
                    if i < before.len() {
                        assert(state.out@[i] == before[i]);
                    }
                }
            }
        }
        Ok(state.out)
    }
}

} // verus!
