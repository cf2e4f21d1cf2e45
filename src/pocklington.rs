use vstd::prelude::*;
use vstd::arithmetic::power::{pow, lemma_pow_positive};
use vstd::arithmetic::power2::{pow2, lemma_pow2_strictly_increases, lemma_pow2_unfold, lemma2_to64, lemma2_to64_rest};
use vstd::arithmetic::div_mod::lemma_fundamental_div_mod;
use rand::rngs::StdRng;
use crate::arith::{is_prime, mod_pow, pow_mod, two_to, capped_power};
use crate::batch::{
    PrimeRecord, GenerationError, BatchState, record_attempt, MAX_BITS, ATTEMPT_LIMIT, DRAW_LIMIT, POOL_BOUND, invalid_parameters,
};
use crate::miller_rabin::{miller_rabin_test, miller_rabin_outcome};
use crate::random::random_range;
use crate::sieve::small_primes;
use crate::witness::{draw_witnesses, valid_witnesses};

verus! {

/// Prime generation by Pocklington's criterion: candidates `n = R * f + 1` where `f`
/// is a product of small prime powers.
pub struct PocklingtonPrimality;

/// `a^((n - 1) / q) != 1 (mod n)` for every tracked factor `q`.
pub open spec fn escapes_all(n: int, a: int, factors: Seq<u64>) -> bool {
    forall|j: int| 0 <= j < factors.len() ==> #[trigger] pow_mod(a, ((n - 1) / (factors[j] as int)) as nat, n) != 1
}

/// Pocklington's check: every base satisfies Fermat's condition, and some base
/// escapes every tracked factor.
pub open spec fn pocklington_accepts(n: int, bases: Seq<u64>, factors: Seq<u64>) -> bool {
    &&& forall|i: int| 0 <= i < bases.len() ==> #[trigger] pow_mod(bases[i] as int, (n - 1) as nat, n) == 1
    &&& exists|i: int| 0 <= i < bases.len() && #[trigger] escapes_all(n, bases[i] as int, factors)
}

/// The product of `fs[i]^es[i]` over all `i`.
pub open spec fn power_product(fs: Seq<u64>, es: Seq<nat>) -> int
    decreases fs.len(),
{
    if fs.len() == 0 || es.len() == 0 {
        1
    } else {
        power_product(fs.drop_last(), es.drop_last()) * pow(fs.last() as int, es.last())
    }
}

/// `n = r * f + 1` of exactly `bits` bits, with `r >= 2` even, `2^(bits/2) < f < 2^(bits/2 + 1)`,
/// and `f` the product of powers `fs[i]^es[i]`, each exponent at least 1.
pub open spec fn pocklington_split(n: int, r: int, f: int, fs: Seq<u64>, es: Seq<nat>, bits: nat) -> bool {
    &&& n == r * f + 1
    &&& r >= 2
    &&& r % 2 == 0
    &&& pow2((bits - 1) as nat) <= n < pow2(bits)
    &&& pow2(bits / 2) < f < pow2(bits / 2 + 1)
    &&& es.len() == fs.len()
    &&& forall|i: int| 0 <= i < es.len() ==> #[trigger] es[i] >= 1
    &&& f == power_product(fs, es)
}

/// The shape of a constructed candidate: the split above, with at least one tracked
/// factor, each a prime of the pool.
pub open spec fn pocklington_shape(n: int, factors: Seq<u64>, bits: nat) -> bool {
    &&& factors.len() >= 1
    &&& exists|r: int, f: int, es: Seq<nat>| #[trigger] pocklington_split(n, r, f, factors, es, bits)
    &&& forall|j: int| 0 <= j < factors.len() ==> is_prime(#[trigger] factors[j] as int) && factors[j] <= POOL_BOUND
}

/// `k` gives a multiplier `r = 2k` that puts `2k * f + 1` at exactly `bits` bits.
pub open spec fn fitting_half_multiplier(k: int, f: int, bits: nat) -> bool {
    k >= 1 && pow2((bits - 1) as nat) <= 2 * k * f + 1 < pow2(bits)
}

/// Bases and factors with which `n` passed the check.
pub open spec fn pocklington_evidence(n: int, bases: Seq<u64>, factors: Seq<u64>, rounds: nat, bits: nat) -> bool {
    &&& valid_witnesses(bases, 2, n, rounds)
    &&& pocklington_shape(n, factors, bits)
    &&& pocklington_accepts(n, bases, factors)
}

/// `n` was accepted: some witness set of `rounds` bases and some tracked factors pass.
pub open spec fn pocklington_certified(n: int, rounds: nat, bits: nat) -> bool {
    exists|bases: Seq<u64>, factors: Seq<u64>| #[trigger] pocklington_evidence(n, bases, factors, rounds, bits)
}

/// Whether base `a` escapes every factor.
fn escapes(n: u64, a: u64, factors: &Vec<u64>) -> (r: bool)
    requires
        n >= 2,
        forall|j: int| 0 <= j < factors@.len() ==> #[trigger] factors@[j] >= 1,
    ensures
        r == escapes_all(n as int, a as int, factors@),
{
    let mut j: usize = 0;
    while j < factors.len()
        invariant
            n >= 2,
            forall|k: int| 0 <= k < factors@.len() ==> #[trigger] factors@[k] >= 1,
            j <= factors@.len(),
            forall|k: int| 0 <= k < j ==> #[trigger] pow_mod(a as int, ((n - 1) / (factors@[k] as int)) as nat, n as int) != 1,
        decreases factors@.len() - j,
    {
        let q = factors[j];
        if mod_pow(a, (n - 1) / q, n) == 1 {
            assert(!(pow_mod(a as int, ((n - 1) / (factors@[j as int] as int)) as nat, n as int) != 1));
            return false;
        }
        j = j + 1;
    }
    true
}

impl PocklingtonPrimality {
    /// Pocklington's check of `n` with the given bases and tracked factors.
    pub fn check(n: u64, bases: &Vec<u64>, factors: &Vec<u64>) -> (r: bool)
        requires
            n >= 2,
            forall|j: int| 0 <= j < factors@.len() ==> #[trigger] factors@[j] >= 1,
        ensures
            r == pocklington_accepts(n as int, bases@, factors@),
    {
        let mut i: usize = 0;
        while i < bases.len()
            invariant
                n >= 2,
                i <= bases@.len(),
                forall|k: int| 0 <= k < i ==> #[trigger] pow_mod(bases@[k] as int, (n - 1) as nat, n as int) == 1,
            decreases bases@.len() - i,
        {
            if mod_pow(bases[i], n - 1, n) != 1 {
                assert(!(pow_mod(bases@[i as int] as int, (n - 1) as nat, n as int) == 1));
                return false;
            }
            i = i + 1;
        }
        let mut i: usize = 0;
        while i < bases.len()
            invariant
                n >= 2,
                forall|j: int| 0 <= j < factors@.len() ==> #[trigger] factors@[j] >= 1,
                i <= bases@.len(),
                forall|k: int| 0 <= k < bases@.len() ==> #[trigger] pow_mod(bases@[k] as int, (n - 1) as nat, n as int) == 1,
                forall|k: int| 0 <= k < i ==> !#[trigger] escapes_all(n as int, bases@[k] as int, factors@),
            decreases bases@.len() - i,
        {
            if escapes(n, bases[i], factors) {
                return true;
            }
            i = i + 1;
        }
        false
    }

    /// One draw of the construction of `f`: `q^e` is taken when `f * q^e` stays below
    /// `2^(bits/2 + 2)`. Then `f` is done when it lies strictly between `2^(bits/2)` and
    /// `2^(bits/2 + 1)`, starts over from 1 with no factors when it reached
    /// `2^(bits/2 + 1)`, and goes on otherwise. Returns whether `f` is done.
    pub fn absorb(f: &mut u64, factors: &mut Vec<u64>, q: u64, e: u64, bits: usize) -> (done: bool)
        requires
            4 <= bits <= MAX_BITS,
            1 <= *old(f) < pow2((bits / 2 + 2) as nat),
            2 <= q <= POOL_BOUND,
        ensures
            ({
                let taken = *old(f) * pow(q as int, e as nat) < pow2((bits / 2 + 2) as nat);
                let f1 = if taken { *old(f) * pow(q as int, e as nat) } else { *old(f) as int };
                let fs1 = if taken { old(factors)@.push(q) } else { old(factors)@ };
                &&& done == (pow2((bits / 2) as nat) < f1 < pow2((bits / 2 + 1) as nat))
                &&& f1 < pow2((bits / 2 + 1) as nat) ==> *final(f) == f1 && final(factors)@ == fs1
                &&& f1 >= pow2((bits / 2 + 1) as nat) ==> *final(f) == 1 && final(factors)@.len() == 0
            }),
            1 <= *final(f) < pow2((bits / 2 + 1) as nat),
    {
        let half: u64 = (bits / 2) as u64;
        let low = two_to(half);
        let high = two_to(half + 1);
        let pow_max = two_to(half + 2);
        proof {
            lemma2_to64();
            lemma2_to64_rest();
            lemma_pow2_strictly_increases((half + 2) as nat, 34);
            lemma_pow2_strictly_increases(half as nat, (half + 1) as nat);
            lemma_pow2_strictly_increases((half + 1) as nat, (half + 2) as nat);
            lemma_pow_positive(q as int, e as nat);
        }
        let pp = capped_power(q, e, pow_max);
        let fits = if pp < pow_max {
            assert((*f as int) * (pp as int) < 0x1000000000000000000) by (nonlinear_arith)
                requires
                    *f < 0x400000000,
                    pp < 0x400000000,
            ;
            (*f as u128) * (pp as u128) < pow_max as u128
        } else {
            assert((*f as int) * pow(q as int, e as nat) >= pow_max) by (nonlinear_arith)
                requires
                    *f >= 1,
                    pow(q as int, e as nat) >= pow_max,
            ;
            false
        };
        if fits {
            assert((*f as int) * (pp as int) >= 1) by (nonlinear_arith)
                requires
                    *f >= 1,
                    pp >= 1,
            ;
            *f = *f * pp;
            factors.push(q);
        }
        if *f > low {
            if *f >= high {
                *f = 1;
                factors.clear();
                return false;
            }
            return true;
        }
        false
    }

    /// The range `[klo, khi]` of the `k` for which the multiplier `2k` puts `2k * f + 1`
    /// at exactly `bits` bits (empty when `klo > khi`).
    pub fn multiplier_range(f: u64, bits: usize) -> (r: (u64, u64))
        requires
            4 <= bits <= MAX_BITS,
            1 <= f < pow2((bits / 2 + 2) as nat),
        ensures
            r.0 >= 1,
            r.1 < pow2(bits as nat),
            forall|k: int| r.0 <= k <= r.1 <==> #[trigger] fitting_half_multiplier(k, f as int, bits as nat),
    {
        let top = two_to(bits as u64);
        let mid = two_to((bits - 1) as u64);
        proof {
            lemma2_to64();
            lemma2_to64_rest();
            lemma_pow2_unfold(bits as nat);
            lemma_pow2_strictly_increases((bits / 2 + 2) as nat, 34);
            if bits < 62 {
                lemma_pow2_strictly_increases(bits as nat, 62);
            }
            lemma_pow2_strictly_increases(2, (bits - 1) as nat);
        }
        let d = 2 * f;
        let klo = (mid - 1 + d - 1) / d;
        let khi = (top - 2) / d;
        proof {
            let (x, y, dd) = ((mid - 1) as int, (top - 2) as int, d as int);
            lemma_fundamental_div_mod(x + dd - 1, dd);
            lemma_fundamental_div_mod(y, dd);
            assert(klo >= 1) by (nonlinear_arith)
                requires
                    x >= 1,
                    dd >= 2,
                    x + dd - 1 == dd * klo + (x + dd - 1) % dd,
                    0 <= (x + dd - 1) % dd < dd,
            ;
            assert(khi <= y) by (nonlinear_arith)
                requires
                    dd >= 2,
                    y == dd * khi + y % dd,
                    0 <= y % dd < dd,
                    y >= 0,
            ;
            assert forall|k: int| klo <= k <= khi <==> #[trigger] fitting_half_multiplier(k, f as int, bits as nat) by {
                assert(2 * k * f == k * dd) by (nonlinear_arith)
                    requires
                        dd == 2 * f,
                ;
                assert((klo <= k) == (k * dd >= x)) by (nonlinear_arith)
                    requires
                        dd >= 2,
                        x + dd - 1 == dd * klo + (x + dd - 1) % dd,
                        0 <= (x + dd - 1) % dd < dd,
                ;
                assert((k <= khi) == (k * dd <= y)) by (nonlinear_arith)
                    requires
                        dd >= 2,
                        y == dd * khi + y % dd,
                        0 <= y % dd < dd,
                ;
                assert(k >= 1 ==> k * dd >= 0) by (nonlinear_arith)
                    requires
                        dd >= 2,
                ;
            }
        }
        (klo, khi)
    }

    /// Builds a candidate `n = R * f + 1` of exactly `bits` bits and the primes whose
    /// powers make up `f`, or gives up after `DRAW_LIMIT` draws.
    fn generate_candidate(pool: &Vec<u64>, bits: u64, rng: &mut StdRng) -> (r: Option<(u64, Vec<u64>)>)
        requires
            4 <= bits <= MAX_BITS,
            pool@.len() > 0,
            forall|i: int| 0 <= i < pool@.len() ==> is_prime(#[trigger] pool@[i] as int) && pool@[i] <= POOL_BOUND,
        ensures
            r matches Some(c) ==> c.0 >= 8 && pocklington_shape(c.0 as int, c.1@, bits as nat),
    {
        let half: u64 = bits / 2;
        proof {
            if bits > 4 {
                lemma_pow2_strictly_increases(3, (bits - 1) as nat);
            }
            if bits < 62 {
                lemma_pow2_strictly_increases(bits as nat, 62);
            }
            lemma2_to64();
            lemma2_to64_rest();
            lemma_pow2_strictly_increases((half + 2) as nat, 34);
            lemma_pow2_strictly_increases(half as nat, (half + 2) as nat);
            lemma_pow2_strictly_increases(0, half as nat);
        }
        // the least exponent `e >= 1` with `2^e >= 2^(bits/2 + 1)`
        let max_pow: u64 = half + 1;
        let mut f: u64 = 1;
        let mut factors: Vec<u64> = Vec::new();
        let ghost mut es: Seq<nat> = Seq::empty();
        let mut draws: u64 = 0;
        while draws < DRAW_LIMIT
            invariant
                4 <= bits <= MAX_BITS,
                half == bits / 2,
                max_pow == half + 1,
                1 <= pow2(half as nat) < pow2((half + 2) as nat) < 0x400000000,
                pow2(bits as nat) <= 0x4000000000000000,
                8 <= pow2((bits - 1) as nat),
                pool@.len() > 0,
                forall|i: int| 0 <= i < pool@.len() ==> is_prime(#[trigger] pool@[i] as int) && pool@[i] <= POOL_BOUND,
                1 <= f < pow2((half + 2) as nat),
                es.len() == factors@.len(),
                forall|i: int| 0 <= i < es.len() ==> #[trigger] es[i] >= 1,
                f == power_product(factors@, es),
                forall|j: int| 0 <= j < factors@.len() ==> is_prime(#[trigger] factors@[j] as int) && factors@[j] <= POOL_BOUND,
            decreases DRAW_LIMIT - draws,
        {
            draws = draws + 1;
            let idx = random_range(rng, 0, pool.len() as u64) as usize;
            let e = random_range(rng, 1, max_pow + 1);
            let q = pool[idx];
            proof {
                assert(is_prime(pool@[idx as int] as int) && pool@[idx as int] <= POOL_BOUND);
            }
            let ghost old_f = f;
            let ghost old_factors = factors@;
            let ghost old_es = es;
            let done = Self::absorb(&mut f, &mut factors, q, e, bits as usize);
            proof {
                if factors@.len() == 0 {
                    es = Seq::empty();
                } else if factors@.len() == old_factors.len() + 1 {
                    es = old_es.push(e as nat);
                    assert(factors@.drop_last() =~= old_factors);
                    assert(es.drop_last() =~= old_es);
                    assert(f == old_f * pow(q as int, e as nat));
                }
                assert forall|j: int| 0 <= j < factors@.len() implies is_prime(#[trigger] factors@[j] as int)
                    && factors@[j] <= POOL_BOUND by {
                    if j < old_factors.len() {
                        assert(factors@[j] == old_factors[j]);
                    }
                }
                assert forall|i: int| 0 <= i < es.len() implies #[trigger] es[i] >= 1 by {
                    if i < old_es.len() {
                        assert(es[i] == old_es[i]);
                    }
                }
            }
            if done {
                let (klo, khi) = Self::multiplier_range(f, bits as usize);
                if klo <= khi {
                    let k = random_range(rng, klo, khi + 1);
                    assert(fitting_half_multiplier(k as int, f as int, bits as nat));
                    assert(2 * k * f < 0x4000000000000000);
                    let r = 2 * k;
                    let n = r * f + 1;
                    proof {
                        assert(n == 2 * k * f + 1) by (nonlinear_arith)
                            requires
                                r == 2 * k,
                                n == r * f + 1,
                        ;
                        assert(pocklington_split(n as int, r as int, f as int, factors@, es, bits as nat));
                        if factors@.len() == 0 {
                            assert(power_product(factors@, es) == 1);
                        }
                    }
                    return Some((n, factors));
                }
                // no even multiplier fits this f: start over
                f = 1;
                factors.clear();
                proof {
                    es = Seq::empty();
                }
            }
        }
        None
    }

    /// Generates `count` primes of Pocklington's form for bit length `bits`, each
    /// checked with a witness set of `tests` distinct bases and corroborated by a
    /// three-round Miller-Rabin test.
    pub fn generate_primes(bits: usize, tests: usize, count: usize, rng: &mut StdRng) -> (r: Result<
        Vec<PrimeRecord>,
        GenerationError,
    >)
        ensures
            invalid_parameters(bits as int, tests as int, count as int) <==> r == Err::<Vec<PrimeRecord>, GenerationError>(GenerationError::InvalidParameters),
            r matches Ok(v) ==> v@.len() == count && forall|i: int|
                0 <= i < v@.len() ==> pocklington_certified(#[trigger] v@[i].value as int, tests as nat, bits as nat)
                    && miller_rabin_outcome(v@[i].value as int, 3, v@[i].corroborated),
    {
        if bits < 4 || bits > MAX_BITS || tests == 0 || count == 0 {
            return Err(GenerationError::InvalidParameters);
        }
        let pool = small_primes();
        let b = bits as u64;
        let mut state = BatchState::new();
        while state.out.len() < count
            invariant
                4 <= b <= MAX_BITS,
                b == bits,
                tests > 0,
                count > 0,
                pool@.len() > 0,
                forall|i: int| 0 <= i < pool@.len() ==> is_prime(#[trigger] pool@[i] as int) && pool@[i] <= POOL_BOUND,
                state.out@.len() <= count,
                state.misses < ATTEMPT_LIMIT,
                forall|i: int|
                    0 <= i < state.out@.len() ==> pocklington_certified(#[trigger] state.out@[i].value as int, tests as nat, bits as nat)
                        && miller_rabin_outcome(state.out@[i].value as int, 3, state.out@[i].corroborated),
            decreases count - state.out@.len(), ATTEMPT_LIMIT - state.misses,
        {
            let (n, factors) = match Self::generate_candidate(&pool, b, rng) {
                Some(c) => c,
                None => {
                    return Err(GenerationError::SearchExhausted);
                },
            };
            let bases = match draw_witnesses(rng, 2, n, tests) {
                Some(v) => v,
                None => {
                    return Err(GenerationError::SearchExhausted);
                },
            };
            proof {
                assert forall|j: int| 0 <= j < factors@.len() implies #[trigger] factors@[j] >= 1 by {
                    assert(is_prime(factors@[j] as int));
                }
            }
            let accepted = Self::check(n, &bases, &factors);
            // the corroborating run on an accepted value, the one-round run on a rejected one
            let corroborated = if accepted {
                miller_rabin_test(n, 3, rng)
            } else {
                false
            };
            let weak_pass = if accepted {
                false
            } else {
                miller_rabin_test(n, 1, rng)
            };
            proof {
                if accepted {
                    assert(pocklington_evidence(n as int, bases@, factors@, tests as nat, bits as nat));
                }
            }
            let ghost before = state.out@;
            match record_attempt(&mut state, accepted, n, corroborated, weak_pass, false) {
                Ok(()) => {},
                Err(_) => {
                    return Err(GenerationError::SearchExhausted);
                },
            }
            proof {
                assert forall|i: int| 0 <= i < state.out@.len() implies pocklington_certified(#[trigger] state.out@[i].value as int, tests as nat, bits as nat)
                    && miller_rabin_outcome(state.out@[i].value as int, 3, state.out@[i].corroborated) by {
                    if i < before.len() {
                        assert(state.out@[i] == before[i]);
                    }
                }
            }
        }
        Ok(state.out)
    }
}

} // verus!
