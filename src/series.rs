use vstd::prelude::*;
use vstd::arithmetic::div_mod::{lemma_fundamental_div_mod, lemma_mod_multiples_basic};
use vstd::arithmetic::mul::lemma_mul_is_distributive_add_other_way;

verus! {

/// `d` divides both `a` and `b`.
pub open spec fn common_divisor(d: int, a: int, b: int) -> bool {
    d > 0 && a % d == 0 && b % d == 0
}

proof fn lemma_divisor_of_multiple(d: int, m: int)
    requires
        d > 0,
    ensures
        (d * m) % d == 0,
{
    lemma_mod_multiples_basic(m, d);
    assert(d * m == m * d) by (nonlinear_arith);
}

proof fn lemma_euclid_step(a: int, b: int, d: int)
    requires
        a >= 0,
        b > 0,
        d > 0,
    ensures
        common_divisor(d, a, b) == common_divisor(d, b, a % b),
{
    lemma_fundamental_div_mod(a, b);
    let q = a / b;
    let r = a % b;
    assert(a == b * q + r);
    if b % d == 0 {
        lemma_fundamental_div_mod(b, d);
        let m = b / d;
        assert(b == d * m);
        if a % d == 0 {
            lemma_fundamental_div_mod(a, d);
            let n = a / d;
            assert(r == d * (n - m * q)) by (nonlinear_arith)
                requires
                    a == b * q + r,
                    b == d * m,
                    a == d * n,
            ;
            lemma_divisor_of_multiple(d, n - m * q);
        }
        if r % d == 0 {
            lemma_fundamental_div_mod(r, d);
            let s = r / d;
            assert(a == d * (m * q + s)) by (nonlinear_arith)
                requires
                    a == b * q + r,
                    b == d * m,
                    r == d * s,
            ;
            lemma_divisor_of_multiple(d, m * q + s);
        }
    }
}

/// Greatest common divisor of two non-negative numbers by Euclid's algorithm.
pub fn find_gcd(a: i32, b: i32) -> (r: i32)
    requires
        a >= 0,
        b >= 0,
    ensures
        r >= 0,
        r == 0 <==> (a == 0 && b == 0),
        r > 0 ==> common_divisor(r as int, a as int, b as int),
        forall|d: int| #[trigger] common_divisor(d, a as int, b as int) ==> (r as int) % d == 0,
{
    let mut x: i32 = a;
    let mut y: i32 = b;
    while y != 0
        invariant
            x >= 0,
            y >= 0,
            (x == 0 && y == 0) <==> (a == 0 && b == 0),
            forall|d: int| d > 0 ==> #[trigger] common_divisor(d, x as int, y as int) == common_divisor(d, a as int, b as int),
        decreases y,
    {
        proof {
            assert forall|d: int| d > 0 implies #[trigger] common_divisor(d, y as int, (x % y) as int) == common_divisor(d, a as int, b as int) by {
                lemma_euclid_step(x as int, y as int, d);
                assert(common_divisor(d, x as int, y as int) == common_divisor(d, a as int, b as int));
            }
        }
        let t = y;
        y = x % y;
        x = t;
    }
    proof {
        if x > 0 {
            assert(common_divisor(x as int, x as int, 0)) by {
                vstd::arithmetic::div_mod::lemma_mod_self_0(x as int);
            }
        }
        assert forall|d: int| #[trigger] common_divisor(d, a as int, b as int) implies (x as int) % d == 0 by {
            assert(common_divisor(d, x as int, y as int));
        }
    }
    x
}

/// The sum of two fractions `(numerator, denominator)`, unreduced.
pub open spec fn frac_add(x: (int, int), y: (int, int)) -> (int, int) {
    (x.0 * y.1 + y.0 * x.1, x.1 * y.1)
}

/// Two fractions denote the same rational number.
pub open spec fn same_value(x: (int, int), y: (int, int)) -> bool {
    x.0 * y.1 == y.0 * x.1
}

/// The term of the series for `power`: `1 / (base - 1)` at zero, and otherwise
/// `base / (base - 1)` times the sum of all earlier terms.
pub open spec fn series_term(power: nat, base: int) -> (int, int)
    decreases power, 1nat,
{
    if power == 0 {
        (1, base - 1)
    } else {
        let t = partial_sum(power, base);
        (base * t.0, (base - 1) * t.1)
    }
}

/// The sum of the terms for `0, 1, ..., k - 1`.
pub open spec fn partial_sum(k: nat, base: int) -> (int, int)
    decreases k, 0nat,
{
    if k == 0 {
        (0, 1)
    } else {
        frac_add(partial_sum((k - 1) as nat, base), series_term((k - 1) as nat, base))
    }
}

proof fn lemma_add_same_value(x: (int, int), y: (int, int), u: (int, int), v: (int, int))
    requires
        same_value(x, u),
        same_value(y, v),
    ensures
        same_value(frac_add(x, y), frac_add(u, v)),
{
    let (x0, x1, y0, y1, u0, u1, v0, v1) = (x.0, x.1, y.0, y.1, u.0, u.1, v.0, v.1);
    lemma_mul_is_distributive_add_other_way(u1 * v1, x0 * y1, y0 * x1);
    lemma_mul_is_distributive_add_other_way(x1 * y1, u0 * v1, v0 * u1);
    assert((x0 * y1) * (u1 * v1) == (x0 * u1) * (y1 * v1)) by (nonlinear_arith);
    assert((y0 * x1) * (u1 * v1) == (y0 * v1) * (x1 * u1)) by (nonlinear_arith);
    assert((u0 * v1) * (x1 * y1) == (u0 * x1) * (y1 * v1)) by (nonlinear_arith);
    assert((v0 * u1) * (x1 * y1) == (v0 * y1) * (x1 * u1)) by (nonlinear_arith);
    assert((x0 * u1) * (y1 * v1) == (u0 * x1) * (y1 * v1));
    assert((y0 * v1) * (x1 * u1) == (v0 * y1) * (x1 * u1));
}

proof fn lemma_reduce_same_value(n: int, d: int, g: int, v: (int, int))
    requires
        g > 0,
        n % g == 0,
        d % g == 0,
        same_value((n, d), v),
    ensures
        same_value((n / g, d / g), v),
        d > 0 ==> d / g > 0,
        n >= 0 ==> n / g >= 0,
{
    lemma_fundamental_div_mod(n, g);
    lemma_fundamental_div_mod(d, g);
    let a = n / g;
    let b = d / g;
    assert(g * (a * v.1) == g * (v.0 * b)) by (nonlinear_arith)
        requires
            n == g * a,
            d == g * b,
            n * v.1 == v.0 * d,
    ;
    vstd::arithmetic::mul::lemma_mul_equality_converse(g, a * v.1, v.0 * b);
    assert(d > 0 ==> b > 0) by (nonlinear_arith)
        requires
            d == g * b,
            g > 0,
    ;
    assert(n >= 0 ==> a >= 0) by (nonlinear_arith)
        requires
            n == g * a,
            g > 0,
    ;
}

proof fn lemma_divided_by_gcd_is_lowest(n: int, d: int, g: int, c: int)
    requires
        g > 0,
        n % g == 0,
        d % g == 0,
        forall|x: int| #[trigger] common_divisor(x, n, d) ==> g % x == 0,
        common_divisor(c, n / g, d / g),
    ensures
        c == 1,
{
    lemma_fundamental_div_mod(n, g);
    lemma_fundamental_div_mod(d, g);
    lemma_fundamental_div_mod(n / g, c);
    lemma_fundamental_div_mod(d / g, c);
    let a = (n / g) / c;
    let b = (d / g) / c;
    assert(n == (c * g) * a) by (nonlinear_arith)
        requires
            n == g * (n / g),
            n / g == c * a + (n / g) % c,
            (n / g) % c == 0,
    ;
    assert(d == (c * g) * b) by (nonlinear_arith)
        requires
            d == g * (d / g),
            d / g == c * b + (d / g) % c,
            (d / g) % c == 0,
    ;
    assert(c * g > 0) by (nonlinear_arith)
        requires
            c > 0,
            g > 0,
    ;
    lemma_divisor_of_multiple(c * g, a);
    lemma_divisor_of_multiple(c * g, b);
    assert(common_divisor(c * g, n, d));
    lemma_fundamental_div_mod(g, c * g);
    let k = g / (c * g);
    assert(c == 1) by (nonlinear_arith)
        requires
            g == (c * g) * k + g % (c * g),
            g % (c * g) == 0,
            g > 0,
            c > 0,
    ;
}

/// The series value for `power` as a fraction reduced by the greatest common divisor,
/// or `None` when an intermediate value does not fit in `i32`.
pub fn compute_series_sum(power: i32, base: i32) -> (r: Option<(i32, i32)>)
    requires
        power >= 0,
        base >= 2,
    ensures
        r matches Some(f) ==> f.0 >= 0 && f.1 > 0 && same_value((f.0 as int, f.1 as int), series_term(power as nat, base as int))
            && forall|c: int| #[trigger] common_divisor(c, f.0 as int, f.1 as int) ==> c == 1,
        power == 0 ==> r == Some((1i32, (base - 1) as i32)),
    decreases power,
{
    if power == 0 {
        proof {
            assert forall|c: int| #[trigger] common_divisor(c, 1, (base - 1) as int) implies c == 1 by {
                if c >= 2 {
                    vstd::arithmetic::div_mod::lemma_small_mod(1, c as nat);
                }
            }
        }
        return Some((1, base - 1));
    }
    let mut total_num: i32 = 0;
    let mut total_den: i32 = 1;
    let mut k: i32 = 0;
    while k < power
        invariant
            0 <= k <= power,
            base >= 2,
            total_num >= 0,
            total_den > 0,
            same_value((total_num as int, total_den as int), partial_sum(k as nat, base as int)),
        decreases power - k,
    {
        let (curr_num, curr_den) = match compute_series_sum(k, base) {
            Some(f) => f,
            None => {
                return None;
            },
        };
        let a = match total_num.checked_mul(curr_den) {
            Some(v) => v,
            None => {
                return None;
            },
        };
        let c = match curr_num.checked_mul(total_den) {
            Some(v) => v,
            None => {
                return None;
            },
        };
        let new_num = match a.checked_add(c) {
            Some(v) => v,
            None => {
                return None;
            },
        };
        let new_den = match total_den.checked_mul(curr_den) {
            Some(v) => v,
            None => {
                return None;
            },
        };
        proof {
            lemma_add_same_value(
                (total_num as int, total_den as int),
                (curr_num as int, curr_den as int),
                partial_sum(k as nat, base as int),
                series_term(k as nat, base as int),
            );
            assert(new_den > 0) by (nonlinear_arith)
                requires
                    new_den == total_den * curr_den,
                    total_den > 0,
                    curr_den > 0,
            ;
            assert(a >= 0 && c >= 0) by (nonlinear_arith)
                requires
                    a == total_num * curr_den,
                    c == curr_num * total_den,
                    total_num >= 0,
                    curr_num >= 0,
                    total_den > 0,
                    curr_den > 0,
            ;
        }
        let g = find_gcd(new_num, new_den);
        proof {
            lemma_reduce_same_value(new_num as int, new_den as int, g as int, partial_sum((k + 1) as nat, base as int));
        }
        total_num = new_num / g;
        total_den = new_den / g;
        k = k + 1;
    }
    let final_num = match base.checked_mul(total_num) {
        Some(v) => v,
        None => {
            return None;
        },
    };
    let final_den = match (base - 1).checked_mul(total_den) {
        Some(v) => v,
        None => {
            return None;
        },
    };
    proof {
        let t = partial_sum(power as nat, base as int);
        assert(series_term(power as nat, base as int) == (base * t.0, (base - 1) * t.1));
        assert(same_value((final_num as int, final_den as int), series_term(power as nat, base as int))) by (nonlinear_arith)
            requires
                final_num == base * total_num,
                final_den == (base - 1) * total_den,
                total_num * t.1 == t.0 * total_den,
                series_term(power as nat, base as int) == (base * t.0, (base - 1) * t.1),
        ;
        assert(final_num >= 0 && final_den > 0) by (nonlinear_arith)
            requires
                final_num == base * total_num,
                final_den == (base - 1) * total_den,
                base >= 2,
                total_num >= 0,
                total_den > 0,
        ;
    }
    let g = find_gcd(final_num, final_den);
    proof {
        lemma_reduce_same_value(final_num as int, final_den as int, g as int, series_term(power as nat, base as int));
        assert forall|c: int| #[trigger] common_divisor(c, (final_num / g) as int, (final_den / g) as int) implies c == 1 by {
            assert forall|x: int| #[trigger] common_divisor(x, final_num as int, final_den as int) implies (g as int) % x == 0 by {}
            lemma_divided_by_gcd_is_lowest(final_num as int, final_den as int, g as int, c);
        }
    }
    Some((final_num / g, final_den / g))
}

} // verus!
