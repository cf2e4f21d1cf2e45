use vstd::prelude::*;
use vstd::arithmetic::div_mod::{lemma_fundamental_div_mod, lemma_mod_multiples_basic, lemma_div_multiples_vanish, lemma_div_is_ordered};
use crate::arith::is_prime;
use crate::batch::POOL_BOUND;

verus! {

/// The primes in `[0, k)`, in increasing order.
pub open spec fn primes_below(k: nat) -> Seq<int>
    decreases k,
{
    if k == 0 {
        Seq::empty()
    } else if is_prime(k - 1) {
        primes_below((k - 1) as nat).push(k - 1)
    } else {
        primes_below((k - 1) as nat)
    }
}

/// `r` lists the primes up to and including `n`, in increasing order.
pub open spec fn is_sieve_output(n: nat, r: Seq<u64>) -> bool {
    &&& r.len() == primes_below(n + 1).len()
    &&& forall|i: int| 0 <= i < r.len() ==> r[i] as int == #[trigger] primes_below(n + 1)[i]
}

/// No `d` in `[2, p)` with `d * d <= k` divides `k`.
pub open spec fn no_small_divisor(k: int, p: int) -> bool {
    forall|d: int| 2 <= d < p && d * d <= k ==> #[trigger] (k % d) != 0
}

proof fn lemma_divides_trans(d: int, p: int, k: int)
    requires
        d > 0,
        p > 0,
        p % d == 0,
        k % p == 0,
    ensures
        k % d == 0,
{
    lemma_fundamental_div_mod(p, d);
    lemma_fundamental_div_mod(k, p);
    let a = p / d;
    let b = k / p;
    assert(k == d * (a * b)) by (nonlinear_arith)
        requires
            p == d * a,
            k == p * b,
    ;
    lemma_mod_multiples_basic(a * b, d);
    assert(d * (a * b) == (a * b) * d) by (nonlinear_arith);
}

proof fn lemma_small_divisor_means_prime(k: int, p: int)
    requires
        k >= 2,
        p >= 2,
        k < p * p,
    ensures
        no_small_divisor(k, p) == is_prime(k),
{
    if is_prime(k) {
        assert forall|d: int| 2 <= d < p && d * d <= k implies #[trigger] (k % d) != 0 by {
            assert(d < k) by (nonlinear_arith)
                requires
                    2 <= d,
                    d * d <= k,
            ;
        }
    }
    if no_small_divisor(k, p) {
        assert forall|d: int| 2 <= d < k implies #[trigger] (k % d) != 0 by {
            if k % d == 0 {
                lemma_fundamental_div_mod(k, d);
                let e = k / d;
                assert(k == d * e);
                if d * d <= k {
                    assert(d < p) by (nonlinear_arith)
                        requires
                            d * d <= k,
                            k < p * p,
                            d >= 2,
                            p >= 2,
                    ;
                    assert(k % d != 0);
                } else {
                    assert(2 <= e && e * e <= k && e < p) by (nonlinear_arith)
                        requires
                            k == d * e,
                            d * d > k,
                            d < k,
                            d >= 2,
                            k < p * p,
                            p >= 2,
                    ;
                    lemma_mod_multiples_basic(d, e);
                    assert(k == d * e);
                    assert(d * e == e * d) by (nonlinear_arith);
                    assert(k % e == 0);
                    assert(k % e != 0);
                }
            }
        }
    }
}

proof fn lemma_multiple_bounds(k: int, p: int)
    requires
        p >= 2,
        k >= 0,
        k % p == 0,
    ensures
        (p <= k / p) == (p * p <= k),
{
    lemma_fundamental_div_mod(k, p);
    let q = k / p;
    assert(k == p * q);
    assert((p <= q) == (p * p <= p * q)) by (nonlinear_arith)
        requires
            p >= 2,
    ;
}

/// All primes up to and including `n`, in increasing order (sieve of Eratosthenes).
pub fn sieve_of_eratosthenes(n: usize) -> (r: Vec<u64>)
    requires
        n < usize::MAX,
    ensures
        is_sieve_output(n as nat, r@),
{
    if n < 2 {
        let r: Vec<u64> = Vec::new();
        assert(primes_below(0) =~= Seq::<int>::empty());
        assert(!is_prime(0));
        assert(!is_prime(1));
        assert(primes_below((n + 1) as nat).len() == 0) by {
            if n == 1 {
                assert(primes_below(2) == primes_below(1));
            }
        }
        return r;
    }
    let mut mark: Vec<bool> = Vec::new();
    let mut i: usize = 0;
    while i <= n
        invariant
            i <= n + 1,
            n < usize::MAX,
            mark@.len() == i,
            forall|k: int| 0 <= k < i ==> #[trigger] mark@[k] == (k >= 2),
        decreases n + 1 - i,
    {
        mark.push(i >= 2);
        i = i + 1;
    }
    let mut p: usize = 2;
    while p <= n / p
        invariant
            2 <= n < usize::MAX,
            2 <= p <= n,
            mark@.len() == n + 1,
            forall|k: int| 0 <= k <= n ==> #[trigger] mark@[k] == (k >= 2 && no_small_divisor(k, p as int)),
        decreases n - p,
    {
        proof {
            assert(p * p <= n) by (nonlinear_arith)
                requires
                    p <= n / p,
                    p >= 2,
            {
                lemma_fundamental_div_mod(n as int, p as int);
            }
            assert(p < n) by (nonlinear_arith)
                requires
                    p * p <= n,
                    p >= 2,
            ;
        }
        if mark[p] {
            let mut j: usize = p;
            let ghost before = mark@;
            while j <= n / p
                invariant
                    2 <= n < usize::MAX,
                    2 <= p <= n,
                    p <= j,
                    j <= n / p + 1,
                    before.len() == n + 1,
                    mark@.len() == n + 1,
                    forall|k: int|
                        0 <= k <= n ==> #[trigger] mark@[k] == (before[k] && !(k % (p as int) == 0
                            && p <= k / (p as int) && k / (p as int) < j)),
                decreases n / p + 1 - j,
            {
                let ghost jj = j as int;
                proof {
                    assert(p * j <= n) by (nonlinear_arith)
                        requires
                            j <= n / p,
                            p >= 2,
                    {
                        lemma_fundamental_div_mod(n as int, p as int);
                    }
                    lemma_mod_multiples_basic(jj, p as int);
                    assert(jj * p == p * jj) by (nonlinear_arith);
                    lemma_div_multiples_vanish(jj, p as int);
                }
                let m = p * j;
                mark.set(m, false);
                j = j + 1;
                proof {
                    assert forall|k: int| 0 <= k <= n implies #[trigger] mark@[k] == (before[k] && !(k
                        % (p as int) == 0 && p <= k / (p as int) && k / (p as int) < j)) by {
                        if k != m {
                            if k % (p as int) == 0 && k / (p as int) == jj {
                                lemma_fundamental_div_mod(k, p as int);
                            }
                        }
                    }
                }
            }
            proof {
                assert forall|k: int| 0 <= k <= n implies #[trigger] mark@[k] == (k >= 2
                    && no_small_divisor(k, (p + 1) as int)) by {
                    if k % (p as int) == 0 {
                        lemma_div_is_ordered(k, n as int, p as int);
                        lemma_multiple_bounds(k, p as int);
                    }
                    if k >= 2 && no_small_divisor(k, p as int) && !(k % (p as int) == 0 && p * p <= k) {
                        assert forall|d: int| 2 <= d < p + 1 && d * d <= k implies #[trigger] (k % d) != 0 by {
                            if d < p {
                                assert(k % d != 0);
                            }
                        }
                    }
                }
            }
        } else {
            proof {
                assert(!no_small_divisor(p as int, p as int));
                let d = choose|d: int| 2 <= d < p && d * d <= p && #[trigger] ((p as int) % d) == 0;
                assert forall|k: int| 0 <= k <= n implies #[trigger] mark@[k] == (k >= 2
                    && no_small_divisor(k, (p + 1) as int)) by {
                    if k >= 2 && no_small_divisor(k, p as int) && k % (p as int) == 0 && p * p <= k {
                        lemma_divides_trans(d, p as int, k);
                        assert(d * d <= k) by (nonlinear_arith)
                            requires
                                d * d <= p,
                                p * p <= k,
                                p >= 2,
                        ;
                        assert(k % d != 0);
                    }
                    if k >= 2 && no_small_divisor(k, p as int) && !(k % (p as int) == 0 && p * p <= k) {
                        assert forall|e: int| 2 <= e < p + 1 && e * e <= k implies #[trigger] (k % e) != 0 by {
                            if e < p {
                                assert(k % e != 0);
                            }
                        }
                    }
                }
            }
        }
        p = p + 1;
    }
    proof {
        assert(n < p * p) by (nonlinear_arith)
            requires
                p > n / p,
                p >= 2,
        {
            lemma_fundamental_div_mod(n as int, p as int);
        }
    }
    let mut r: Vec<u64> = Vec::new();
    let mut i: usize = 0;
    while i <= n
        invariant
            i <= n + 1,
            2 <= n < usize::MAX,
            2 <= p,
            n < p * p,
            mark@.len() == n + 1,
            forall|k: int| 0 <= k <= n ==> #[trigger] mark@[k] == (k >= 2 && no_small_divisor(k, p as int)),
            r@.len() == primes_below(i as nat).len(),
            forall|t: int| 0 <= t < r@.len() ==> r@[t] as int == #[trigger] primes_below(i as nat)[t],
        decreases n + 1 - i,
    {
        proof {
            if i >= 2 {
                lemma_small_divisor_means_prime(i as int, p as int);
            }
        }
        if mark[i] {
            r.push(i as u64);
        }
        i = i + 1;
        proof {
            assert(primes_below(i as nat) == if is_prime(i - 1) {
                primes_below((i - 1) as nat).push(i - 1)
            } else {
                primes_below((i - 1) as nat)
            });
        }
    }
    r
}

/// The sieve is a function of its bound: two runs with the same bound give the same list.
pub proof fn lemma_sieve_idempotent(n: nat, first: Seq<u64>, second: Seq<u64>)
    requires
        is_sieve_output(n, first),
        is_sieve_output(n, second),
    ensures
        first == second,
{
    assert forall|i: int| 0 <= i < first.len() implies first[i] == second[i] by {
        assert(first[i] as int == primes_below(n + 1)[i]);
        assert(second[i] as int == primes_below(n + 1)[i]);
    }
    assert(first =~= second);
}

/// Every entry of `primes_below(k)` is a prime below `k`, and the entries increase strictly.
pub proof fn lemma_primes_below_sound(k: nat)
    ensures
        forall|i: int| 0 <= i < primes_below(k).len() ==> is_prime(#[trigger] primes_below(k)[i]) && primes_below(k)[i] < k,
        forall|i: int, j: int| 0 <= i < j < primes_below(k).len() ==> primes_below(k)[i] < primes_below(k)[j],
    decreases k,
{
    if k > 0 {
        let prev = primes_below((k - 1) as nat);
        lemma_primes_below_sound((k - 1) as nat);
        if is_prime(k - 1) {
            assert(primes_below(k) == prev.push(k - 1));
            assert forall|i: int| 0 <= i < primes_below(k).len() implies is_prime(#[trigger] primes_below(k)[i])
                && primes_below(k)[i] < k by {
                if i < prev.len() {
                    assert(primes_below(k)[i] == prev[i]);
                }
            }
            assert forall|i: int, j: int| 0 <= i < j < primes_below(k).len() implies primes_below(k)[i]
                < primes_below(k)[j] by {
                assert(primes_below(k)[i] == prev[i]);
                if j < prev.len() {
                    assert(primes_below(k)[j] == prev[j]);
                }
            }
        } else {
            assert(primes_below(k) == prev);
        }
    }
}

/// Every prime below `k` is an entry of `primes_below(k)`.
pub proof fn lemma_primes_below_complete(k: nat, p: int)
    requires
        is_prime(p),
        p < k,
    ensures
        primes_below(k).contains(p),
    decreases k,
{
    if p < k - 1 {
        lemma_primes_below_complete((k - 1) as nat, p);
        let i = choose|i: int| 0 <= i < primes_below((k - 1) as nat).len() && #[trigger] primes_below((k - 1) as nat)[i] == p;
        assert(primes_below(k)[i] == p);
    } else {
        assert(primes_below(k).last() == p);
    }
}

/// The primes up to `POOL_BOUND`, the factor pool of the generators.
pub fn small_primes() -> (r: Vec<u64>)
    ensures
        r@.len() > 0,
        r@[0] == 2,
        forall|i: int| 0 <= i < r@.len() ==> is_prime(#[trigger] r@[i] as int) && r@[i] <= POOL_BOUND,
{
    let r = sieve_of_eratosthenes(POOL_BOUND);
    proof {
        let k = (POOL_BOUND + 1) as nat;
        lemma_primes_below_sound(k);
        assert(is_prime(2));
        lemma_primes_below_complete(k, 2);
        let j = choose|j: int| 0 <= j < primes_below(k).len() && #[trigger] primes_below(k)[j] == 2;
        assert(r@.len() > 0);
        if j > 0 {
            assert(primes_below(k)[0] < 2);
            assert(is_prime(primes_below(k)[0]));
        }
        assert forall|i: int| 0 <= i < r@.len() implies is_prime(#[trigger] r@[i] as int) && r@[i] <= POOL_BOUND by {
            assert(r@[i] as int == primes_below(k)[i]);
        }
    }
    r
}

} // verus!
