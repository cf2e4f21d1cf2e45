use vstd::prelude::*;
use vstd::arithmetic::power2::{pow2, lemma_pow2_strictly_increases, lemma_pow2_unfold, lemma2_to64, lemma2_to64_rest};
use vstd::arithmetic::div_mod::{lemma_fundamental_div_mod, lemma_div_is_ordered};
use rand::rngs::StdRng;
use crate::arith::{is_prime, mod_pow, pow_mod, two_to};
use crate::batch::{
    PrimeRecord, GenerationError, BatchState, record_attempt, MAX_BITS, ATTEMPT_LIMIT, DRAW_LIMIT, POOL_BOUND, invalid_parameters,
};
use crate::miller_rabin::{miller_rabin_test, miller_rabin_outcome};
use crate::random::random_range;
use crate::sieve::small_primes;

verus! {

/// Constructive prime generation in the style of GOST R 34.10-94: `p = e * q + 1`
/// for a small prime `q`, accepted by two congruences.
pub struct GOSTPrimality;

/// `p = e * q + 1` with `q` a pool prime of at most `(bits + 1) / 2` bits, `e` even,
/// `p <= 2^bits`, `2^(p-1) = 1 (mod p)` and `2^e != 1 (mod p)`, where `e` is the first
/// passing multiplier of the search from a scale `t` in `[2^(bits-1), 2^bits)`.
pub open spec fn gost_evidence(p: int, q: int, e: int, t: int, bits: nat) -> bool {
    &&& pow2((bits - 1) as nat) <= t < pow2(bits)
    &&& gost_hit(p, e, q, t, bits)
    &&& is_prime(q)
    &&& q <= POOL_BOUND
    &&& q < pow2((bits + 1) / 2)
    &&& e >= 0
    &&& e % 2 == 0
    &&& p == e * q + 1
    &&& p <= pow2(bits)
    &&& pow_mod(2, (p - 1) as nat, p) == 1
    &&& pow_mod(2, e as nat, p) != 1
}

/// `p` came out of the search for some pool prime `q`, scale `t` and even `e`.
pub open spec fn gost_certified(p: int, bits: nat) -> bool {
    exists|q: int, e: int, t: int| #[trigger] gost_evidence(p, q, e, t, bits)
}

/// Draws pool primes until one is at most `q_max`, or gives up after `DRAW_LIMIT` draws.
fn pick_factor(pool: &Vec<u64>, q_max: u64, rng: &mut StdRng) -> (r: Option<u64>)
    requires
        pool@.len() > 0,
        forall|i: int| 0 <= i < pool@.len() ==> is_prime(#[trigger] pool@[i] as int) && pool@[i] <= POOL_BOUND,
    ensures
        r matches Some(q) ==> is_prime(q as int) && q <= POOL_BOUND && q <= q_max,
{
    let mut draws: u64 = 0;
    while draws < DRAW_LIMIT
        invariant
            pool@.len() > 0,
            forall|i: int| 0 <= i < pool@.len() ==> is_prime(#[trigger] pool@[i] as int) && pool@[i] <= POOL_BOUND,
        decreases DRAW_LIMIT - draws,
    {
        draws = draws + 1;
        let idx = random_range(rng, 0, pool.len() as u64) as usize;
        let c = pool[idx];
        assert(is_prime(pool@[idx as int] as int) && pool@[idx as int] <= POOL_BOUND);
        if c <= q_max {
            return Some(c);
        }
    }
    None
}

/// The two congruences on `p = e * q + 1`: `2^(p-1) = 1 (mod p)` and `2^e != 1 (mod p)`.
pub open spec fn gost_passes(e: int, q: int) -> bool {
    pow_mod(2, (e * q) as nat, e * q + 1) == 1 && pow_mod(2, e as nat, e * q + 1) != 1
}

/// The first multiplier tried for scale `t`: `t / q`, raised to the next even number.
pub open spec fn gost_start(t: int, q: int) -> int {
    if (t / q) % 2 != 0 {
        t / q + 1
    } else {
        t / q
    }
}

/// `p = e * q + 1` where `e` is the first even multiplier from `gost_start(t, q)` on
/// that passes, and `p <= 2^bits`.
pub open spec fn gost_hit(p: int, e: int, q: int, t: int, bits: nat) -> bool {
    &&& p == e * q + 1
    &&& e % 2 == 0
    &&& gost_start(t, q) <= e
    &&& p <= pow2(bits)
    &&& gost_passes(e, q)
    &&& forall|e2: int| gost_start(t, q) <= e2 < e && e2 % 2 == 0 ==> !#[trigger] gost_passes(e2, q)
}

/// What the increment search returns: the first passing `p`, with its multiplier `e`, when there is one within
/// `2^bits`, and nothing when no even multiplier from `gost_start(t, q)` on passes there.
pub open spec fn gost_search_outcome(r: Option<(u64, u64)>, q: int, t: int, bits: nat) -> bool {
    match r {
        Some((p, e)) => gost_hit(p as int, e as int, q, t, bits),
        None => forall|e: int|
            gost_start(t, q) <= e && e % 2 == 0 && e * q + 1 <= pow2(bits) ==> !#[trigger] gost_passes(e, q),
    }
}

impl GOSTPrimality {
    /// The increment search for a given factor `q` and scale `t`: tries `p = e * q + 1`
    /// for `e = gost_start(t, q), +2, +4, ...` while `p <= 2^bits`, and returns the
    /// first `p` that passes both congruences, with its `e`, if any.
    pub fn search(q: u64, t: u64, bits: usize) -> (r: Option<(u64, u64)>)
        requires
            q >= 2,
            bits <= MAX_BITS,
        ensures
            gost_search_outcome(r, q as int, t as int, bits as nat),
    {
        let ceiling = two_to(bits as u64);
        proof {
            lemma2_to64();
            lemma2_to64_rest();
            if bits < 62 {
                lemma_pow2_strictly_increases(bits as nat, 62);
            }
            if bits > 0 {
                lemma_pow2_strictly_increases(0, bits as nat);
            }
        }
        let mut e = t / q;
        assert(t / q <= 0x7fffffffffffffff) by (nonlinear_arith)
            requires
                q >= 2,
                t <= 0xffffffffffffffff,
        {
            lemma_fundamental_div_mod(t as int, q as int);
        }
        if e % 2 != 0 {
            e = e + 1;
        }
        let bound = (ceiling - 1) / q;
        while e <= bound
            invariant
                q >= 2,
                ceiling == pow2(bits as nat),
                1 <= ceiling <= 0x4000000000000000,
                bound == (ceiling - 1) / (q as int),
                e % 2 == 0,
                gost_start(t as int, q as int) <= e,
                e <= bound + 2 || e == gost_start(t as int, q as int),
                forall|e2: int| gost_start(t as int, q as int) <= e2 < e && e2 % 2 == 0 ==> !#[trigger] gost_passes(e2, q as int),
            decreases bound + 2 - e,
        {
            assert(e * q <= ceiling - 1) by (nonlinear_arith)
                requires
                    e <= bound,
                    bound == (ceiling - 1) / (q as int),
                    q >= 2,
                    ceiling >= 1,
            {
                lemma_fundamental_div_mod((ceiling - 1) as int, q as int);
            }
            let p = e * q + 1;
            if mod_pow(2, p - 1, p) == 1 && mod_pow(2, e, p) != 1 {
                proof {
                    let ee = e as int;
                    assert(gost_passes(ee, q as int));
                    assert(gost_hit(p as int, ee, q as int, t as int, bits as nat));
                }
                return Some((p, e));
            }
            e = e + 2;
        }
        proof {
            assert forall|e2: int|
                gost_start(t as int, q as int) <= e2 && e2 % 2 == 0 && e2 * q + 1 <= pow2(bits as nat) implies !#[trigger] gost_passes(e2, q as int) by {
                if e2 >= e {
                    assert(e2 <= bound) by (nonlinear_arith)
                        requires
                            e2 * q + 1 <= ceiling,
                            bound == (ceiling - 1) / (q as int),
                            q >= 2,
                            e2 >= 0,
                    {
                        lemma_div_is_ordered(e2 * q, (ceiling - 1) as int, q as int);
                        vstd::arithmetic::div_mod::lemma_div_multiples_vanish(e2, q as int);
                    }
                }
            }
        }
        None
    }

    /// Constructs one prime of at most `bits` bits, or gives up after `DRAW_LIMIT`
    /// samples of the scale.
    fn generate_prime(pool: &Vec<u64>, bits: u64, rng: &mut StdRng) -> (r: Option<u64>)
        requires
            4 <= bits <= MAX_BITS,
            pool@.len() > 0,
            forall|i: int| 0 <= i < pool@.len() ==> is_prime(#[trigger] pool@[i] as int) && pool@[i] <= POOL_BOUND,
        ensures
            r matches Some(p) ==> gost_certified(p as int, bits as nat),
    {
        let q_bits = (bits + 1) / 2;
        let q_limit = two_to(q_bits);
        let half_span = two_to(bits - 1);
        let ceiling = two_to(bits);
        proof {
            lemma2_to64();
            lemma2_to64_rest();
            lemma_pow2_unfold(bits as nat);
            if bits < 62 {
                lemma_pow2_strictly_increases(bits as nat, 62);
            }
            lemma_pow2_strictly_increases(0, q_bits as nat);
            lemma_pow2_strictly_increases(0, (bits - 1) as nat);
        }
        let q = match pick_factor(pool, q_limit - 1, rng) {
            Some(q) => q,
            None => {
                return None;
            },
        };
        let mut samples: u64 = 0;
        while samples < DRAW_LIMIT
            invariant
                4 <= bits <= MAX_BITS,
                q_bits == (bits + 1) / 2,
                q_limit == pow2(q_bits as nat),
                half_span == pow2((bits - 1) as nat),
                ceiling == pow2(bits as nat),
                ceiling == 2 * half_span,
                1 <= half_span,
                ceiling <= 0x4000000000000000,
                is_prime(q as int),
                q <= POOL_BOUND,
                q < q_limit,
            decreases DRAW_LIMIT - samples,
        {
            samples = samples + 1;
            // a uniform draw from [2^(bits-1), 2^bits) stands for the scale 2^(bits-1) * (1 + xi)
            let t = random_range(rng, half_span, ceiling);
            let found = Self::search(q, t, bits as usize);
            match found {
                Some((p, e)) => {
                    proof {
                        assert(gost_evidence(p as int, q as int, e as int, t as int, bits as nat));
                    }
                    return Some(p);
                },
                None => {},
            }
        }
        None
    }

    /// Generates `count` distinct primes of at most `bits` bits by the constructive
    /// method, each one kept only when a `test_rounds`-round Miller-Rabin test passes.
    pub fn generate_primes(bits: usize, test_rounds: usize, count: usize, rng: &mut StdRng) -> (r: Result<
        Vec<PrimeRecord>,
        GenerationError,
    >)
        ensures
            invalid_parameters(bits as int, test_rounds as int, count as int) <==> r == Err::<Vec<PrimeRecord>, GenerationError>(GenerationError::InvalidParameters),
            r matches Ok(v) ==> {
                &&& v@.len() == count
                &&& forall|i: int, j: int| 0 <= i < v@.len() && 0 <= j < v@.len() && i != j ==> v@[i].value != v@[j].value
                &&& forall|i: int|
                    0 <= i < v@.len() ==> gost_certified(#[trigger] v@[i].value as int, bits as nat)
                        && v@[i].corroborated && miller_rabin_outcome(v@[i].value as int, test_rounds as nat, true)
            },
    {
        if bits < 4 || bits > MAX_BITS || test_rounds == 0 || count == 0 {
            return Err(GenerationError::InvalidParameters);
        }
        let pool = small_primes();
        let b = bits as u64;
        let mut state = BatchState::new();
        while state.out.len() < count
            invariant
                4 <= b <= MAX_BITS,
                b == bits,
                test_rounds > 0,
                count > 0,
                pool@.len() > 0,
                forall|i: int| 0 <= i < pool@.len() ==> is_prime(#[trigger] pool@[i] as int) && pool@[i] <= POOL_BOUND,
                state.out@.len() <= count,
                state.misses < ATTEMPT_LIMIT,
                forall|i: int, j: int|
                    0 <= i < state.out@.len() && 0 <= j < state.out@.len() && i != j ==> state.out@[i].value != state.out@[j].value,
                forall|i: int|
                    0 <= i < state.out@.len() ==> gost_certified(#[trigger] state.out@[i].value as int, bits as nat)
                        && state.out@[i].corroborated && miller_rabin_outcome(state.out@[i].value as int, test_rounds as nat, true),
            decreases count - state.out@.len(), ATTEMPT_LIMIT - state.misses,
        {
            // a construction that finds nothing, or a value already found, is a failed
            // attempt that is not counted as rejected
            let (value, accepted, counted) = match Self::generate_prime(&pool, b, rng) {
                Some(p) => {
                    if Self::already_found(&state.out, p) {
                        (p, false, false)
                    } else {
                        let passed = miller_rabin_test(p, test_rounds, rng);
                        (p, passed, !passed)
                    }
                },
                None => (0, false, false),
            };
            let ghost before = state.out@;
            match record_attempt(&mut state, accepted, value, true, counted, true) {
                Ok(()) => {},
                Err(_) => {
                    return Err(GenerationError::SearchExhausted);
                },
            }
            proof {
                assert forall|i: int| 0 <= i < state.out@.len() implies gost_certified(#[trigger] state.out@[i].value as int, bits as nat)
                    && state.out@[i].corroborated && miller_rabin_outcome(state.out@[i].value as int, test_rounds as nat, true) by {
                    if i < before.len() {
                        assert(state.out@[i] == before[i]);
                    }
                }
                assert forall|i: int, j: int| 0 <= i < state.out@.len() && 0 <= j < state.out@.len() && i != j implies state.out@[i].value
                    != state.out@[j].value by {
                    if i < before.len() {
                        assert(state.out@[i] == before[i]);
                    }
                    if j < before.len() {
                        assert(state.out@[j] == before[j]);
                    }
                }
            }
        }
        Ok(state.out)
    }

    /// Whether `p` is already the value of one of the records.
    fn already_found(out: &Vec<PrimeRecord>, p: u64) -> (r: bool)
        ensures
            r == exists|i: int| 0 <= i < out@.len() && #[trigger] out@[i].value == p,
    {
        let mut i: usize = 0;
        while i < out.len()
            invariant
                i <= out@.len(),
                forall|k: int| 0 <= k < i ==> #[trigger] out@[k].value != p,
            decreases out@.len() - i,
        {
            if out[i].value == p {
                assert(out@[i as int].value == p);
                return true;
            }
            i = i + 1;
        }
        false
    }
}

} // verus!
