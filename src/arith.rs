use vstd::prelude::*;
use vstd::arithmetic::power::{pow, lemma_pow_adds, lemma_pow_multiplies, lemma_square_is_pow2, lemma_pow_mod_noop, lemma_pow0, lemma_pow1};
use vstd::arithmetic::power::lemma_pow_increases;
use vstd::arithmetic::power2::{pow2, lemma_pow2_unfold, lemma_pow2_strictly_increases, lemma2_to64};
use vstd::arithmetic::div_mod::{lemma_mul_mod_noop_general, lemma_fundamental_div_mod};

verus! {

/// `n` is a prime: at least 2, and no integer in `[2, n)` divides it.
pub open spec fn is_prime(n: int) -> bool {
    n >= 2 && forall|d: int| 2 <= d < n ==> #[trigger] (n % d) != 0
}

/// `b` raised to `e`, reduced modulo `m`.
pub open spec fn pow_mod(b: int, e: nat, m: int) -> int {
    pow(b, e) % m
}

/// `(a * b) % m` computed without overflow.
pub fn mul_mod(a: u64, b: u64, m: u64) -> (r: u64)
    requires
        m > 0,
    ensures
        r == (a as int * b as int) % (m as int),
        r < m,
{
    assert((a as int) * (b as int) <= (u64::MAX as int) * (u64::MAX as int)) by (nonlinear_arith);
    let p: u128 = (a as u128) * (b as u128);
    (p % (m as u128)) as u64
}

proof fn lemma_square_step(r: int, b: int, e: nat, m: int)
    requires
        m > 0,
    ensures
        (r * pow(b, e)) % m == ((if e % 2 == 1 { (r * b) % m } else { r }) * pow((b * b) % m, e / 2)) % m,
{
    let k: nat = e / 2;
    let t: nat = e % 2;
    lemma_fundamental_div_mod(e as int, 2);
    lemma_pow_adds(b, 2 * k, t);
    lemma_pow_multiplies(b, 2, k);
    lemma_square_is_pow2(b);
    let big = pow(b * b, k);
    let small = pow((b * b) % m, k);
    lemma_pow_mod_noop(b * b, k, m);
    assert(pow(b, e) == big * pow(b, t));
    if t == 1 {
        lemma_pow1(b);
        assert(r * pow(b, e) == (r * b) * big) by (nonlinear_arith)
            requires
                pow(b, e) == big * pow(b, t),
                pow(b, t) == b,
        ;
        lemma_mul_mod_noop_general(r * b, big, m);
        lemma_mul_mod_noop_general(r * b, small, m);
    } else {
        lemma_pow0(b);
        assert(pow(b, e) == big);
        lemma_mul_mod_noop_general(r, big, m);
        lemma_mul_mod_noop_general(r, small, m);
    }
}

/// Modular exponentiation by repeated squaring: `base^exponent mod modulus`.
pub fn mod_pow(base: u64, exponent: u64, modulus: u64) -> (r: u64)
    requires
        modulus >= 1,
    ensures
        r == pow_mod(base as int, exponent as nat, modulus as int),
        r < modulus,
{
    if modulus == 1 {
        return 0;
    }
    let mut result: u64 = 1;
    let mut b: u64 = base % modulus;
    let mut e: u64 = exponent;
    proof {
        lemma_pow_mod_noop(base as int, exponent as nat, modulus as int);
        lemma_mul_mod_noop_general(1, pow(b as int, e as nat), modulus as int);
    }
    while e > 0
        invariant
            modulus > 1,
            result < modulus,
            b < modulus,
            (result * pow(b as int, e as nat)) % (modulus as int) == pow(base as int, exponent as nat) % (modulus as int),
        decreases e,
    {
        proof {
            lemma_square_step(result as int, b as int, e as nat, modulus as int);
        }
        if e % 2 == 1 {
            result = mul_mod(result, b, modulus);
        }
        e = e / 2;
        b = mul_mod(b, b, modulus);
    }
    proof {
        lemma_pow0(b as int);
        assert((result as int) % (modulus as int) == result as int) by {
            vstd::arithmetic::div_mod::lemma_small_mod(result as nat, modulus as nat);
        }
    }
    result
}

/// `2^k` for `k < 64`.
pub fn two_to(k: u64) -> (r: u64)
    requires
        k < 64,
    ensures
        r == pow2(k as nat),
{
    let mut r: u64 = 1;
    let mut i: u64 = 0;
    proof {
        lemma2_to64();
    }
    while i < k
        invariant
            i <= k < 64,
            r == pow2(i as nat),
        decreases k - i,
    {
        proof {
            lemma_pow2_unfold((i + 1) as nat);
            lemma_pow2_strictly_increases((i + 1) as nat, 64);
            lemma2_to64();
            assert(pow2(64) == 0x10000000000000000) by {
                lemma_pow2_unfold(64);
            }
        }
        r = r * 2;
        i = i + 1;
    }
    r
}

/// `q^e` when it is below `cap`; otherwise some value at least `cap`.
pub fn capped_power(q: u64, e: u64, cap: u64) -> (r: u64)
    requires
        1 <= q <= 0x10000,
        cap <= 0x1000000000000,
    ensures
        (r < cap) == (pow(q as int, e as nat) < cap),
        r < cap ==> r == pow(q as int, e as nat),
{
    let mut r: u64 = 1;
    let mut i: u64 = 0;
    proof {
        lemma_pow0(q as int);
    }
    while i < e
        invariant
            1 <= q <= 0x10000,
            cap <= 0x1000000000000,
            i <= e,
            r == pow(q as int, i as nat),
        decreases e - i,
    {
        if r >= cap {
            proof {
                lemma_pow_increases(q as nat, i as nat, e as nat);
            }
            return r;
        }
        proof {
            assert(pow(q as int, (i + 1) as nat) == q * pow(q as int, i as nat)) by {
                reveal(pow);
            }
            assert(r * q < 0x10000000000000000) by (nonlinear_arith)
                requires
                    r < cap,
                    cap <= 0x1000000000000,
                    q <= 0x10000,
            ;
        }
        r = r * q;
        i = i + 1;
    }
    r
}

} // verus!
