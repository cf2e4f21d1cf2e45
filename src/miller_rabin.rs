use vstd::prelude::*;
use rand::rngs::StdRng;
use crate::arith::{mod_pow, mul_mod, pow_mod};
use crate::random::random_range;

verus! {

/// The odd part `d` of `k = d * 2^s` (zero stays zero).
pub open spec fn odd_part(k: nat) -> nat
    decreases k,
{
    if k > 0 && k % 2 == 0 {
        odd_part(k / 2)
    } else {
        k
    }
}

/// The exponent `s` of two in `k = d * 2^s` with `d` odd (zero for zero).
pub open spec fn two_exponent(k: nat) -> nat
    decreases k,
{
    if k > 0 && k % 2 == 0 {
        1 + two_exponent(k / 2)
    } else {
        0
    }
}

/// `x` squared `j` times modulo `n`.
pub open spec fn square_chain(x: int, n: int, j: nat) -> int
    decreases j,
{
    if j == 0 {
        x
    } else {
        (square_chain(x, n, (j - 1) as nat) * square_chain(x, n, (j - 1) as nat)) % n
    }
}

/// Base `a` does not witness the compositeness of odd `n`: with `n - 1 = d * 2^s`,
/// `a^d = 1 (mod n)` or `a^(d * 2^j) = n - 1 (mod n)` for some `j < s`.
pub open spec fn witness_passes(n: int, a: int) -> bool {
    let d = odd_part((n - 1) as nat);
    let s = two_exponent((n - 1) as nat);
    let x = pow_mod(a, d, n);
    x == 1 || exists|j: nat| j < s && #[trigger] square_chain(x, n, j) == n - 1
}

/// The Miller-Rabin verdict on `n` for the given bases: 2 and 3 are prime, values
/// below 2 and even values are composite, and any other value is declared probably
/// prime when no base witnesses its compositeness.
pub open spec fn miller_rabin_verdict(n: int, bases: Seq<u64>) -> bool {
    if n == 2 || n == 3 {
        true
    } else if n < 2 || n % 2 == 0 {
        false
    } else {
        forall|i: int| 0 <= i < bases.len() ==> #[trigger] witness_passes(n, bases[i] as int)
    }
}

/// The bases that a run of `rounds` rounds may draw for `n`: one per round, each in
/// `[2, n - 2]`, when `n` is odd and at least 5; none otherwise.
pub open spec fn valid_mr_bases(n: int, bases: Seq<u64>, rounds: nat) -> bool {
    if 5 <= n && n % 2 == 1 {
        bases.len() == rounds && forall|i: int| 0 <= i < bases.len() ==> 2 <= #[trigger] bases[i] <= n - 2
    } else {
        bases.len() == 0
    }
}

/// A run of `rounds` rounds on `n` can come out as `verdict`.
pub open spec fn miller_rabin_outcome(n: int, rounds: nat, verdict: bool) -> bool {
    exists|bases: Seq<u64>| #[trigger] valid_mr_bases(n, bases, rounds) && verdict == miller_rabin_verdict(n, bases)
}

/// Splits `num - 1` into `d * 2^s` with `d` odd, returning `(d, s)`.
fn decompose(num: u64) -> (r: (u64, u64))
    requires
        num >= 5,
        num % 2 == 1,
    ensures
        r.0 == odd_part((num - 1) as nat),
        r.1 == two_exponent((num - 1) as nat),
        r.1 >= 1,
{
    let mut d: u64 = num - 1;
    let mut s: u64 = 0;
    assert(two_exponent((num - 1) as nat) == 1 + two_exponent(((num - 1) / 2) as nat));
    while d % 2 == 0
        invariant
            d > 0,
            s + d <= num - 1,
            odd_part(d as nat) == odd_part((num - 1) as nat),
            s + two_exponent(d as nat) == two_exponent((num - 1) as nat),
            two_exponent((num - 1) as nat) >= 1,
        decreases d,
    {
        d = d / 2;
        s = s + 1;
    }
    (d, s)
}

/// One round of the test on odd `num >= 5` with base `a`, given `num - 1 = d * 2^s`.
fn witness_round(num: u64, d: u64, s: u64, a: u64) -> (r: bool)
    requires
        num >= 5,
        num % 2 == 1,
        d == odd_part((num - 1) as nat),
        s == two_exponent((num - 1) as nat),
        s >= 1,
    ensures
        r == witness_passes(num as int, a as int),
{
    let x0 = mod_pow(a, d, num);
    let mut x = x0;
    if x == 1 || x == num - 1 {
        assert(square_chain(x0 as int, num as int, 0) == x0);
        return true;
    }
    let mut i: u64 = 0;
    while i + 1 < s
        invariant
            num >= 5,
            d == odd_part((num - 1) as nat),
            s == two_exponent((num - 1) as nat),
            x0 == pow_mod(a as int, d as nat, num as int),
            i < s,
            x < num,
            x == square_chain(x0 as int, num as int, i as nat),
            x0 != 1,
            forall|j: nat| j <= i ==> #[trigger] square_chain(x0 as int, num as int, j) != num - 1,
        decreases s - i,
    {
        x = mul_mod(x, x, num);
        i = i + 1;
        assert(x == square_chain(x0 as int, num as int, i as nat));
        if x == num - 1 {
            proof {
                let j = i as nat;
                assert(j < s && square_chain(x0 as int, num as int, j) == num - 1);
            }
            return true;
        }
    }
    proof {
        assert forall|j: nat| j < s implies #[trigger] square_chain(x0 as int, num as int, j) != num - 1 by {
            assert(j <= i);
        }
    }
    false
}

/// The Miller-Rabin test run with the given bases, one round per base.
pub fn miller_rabin_with_bases(num: u64, bases: &Vec<u64>) -> (r: bool)
    ensures
        r == miller_rabin_verdict(num as int, bases@),
{
    if num == 2 || num == 3 {
        return true;
    }
    if num < 2 || num % 2 == 0 {
        return false;
    }
    let (d, s) = decompose(num);
    let mut i: usize = 0;
    while i < bases.len()
        invariant
            num >= 5,
            num % 2 == 1,
            d == odd_part((num - 1) as nat),
            s == two_exponent((num - 1) as nat),
            s >= 1,
            i <= bases@.len(),
            forall|k: int| 0 <= k < i ==> #[trigger] witness_passes(num as int, bases@[k] as int),
        decreases bases@.len() - i,
    {
        if !witness_round(num, d, s, bases[i]) {
            return false;
        }
        i = i + 1;
    }
    true
}

/// The Miller-Rabin test with `tests` rounds, each with a base drawn from `[2, num - 2]`:
/// `true` means probably prime, `false` definitely composite.
pub fn miller_rabin_test(num: u64, tests: usize, rng: &mut StdRng) -> (r: bool)
    ensures
        miller_rabin_outcome(num as int, tests as nat, r),
{
    if num < 5 || num % 2 == 0 {
        let none: Vec<u64> = Vec::new();
        let r = miller_rabin_with_bases(num, &none);
        assert(valid_mr_bases(num as int, none@, tests as nat));
        return r;
    }
    let mut bases: Vec<u64> = Vec::new();
    let mut i: usize = 0;
    while i < tests
        invariant
            num >= 5,
            i <= tests,
            bases@.len() == i,
            forall|k: int| 0 <= k < bases@.len() ==> 2 <= #[trigger] bases@[k] <= num - 2,
        decreases tests - i,
    {
        let a = random_range(rng, 2, num - 1);
        bases.push(a);
        i = i + 1;
    }
    let r = miller_rabin_with_bases(num, &bases);
    assert(valid_mr_bases(num as int, bases@, tests as nat));
    r
}

} // verus!
