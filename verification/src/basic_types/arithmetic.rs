//! Integer helpers: rounding division and greatest common divisors.

use vstd::prelude::*;
use vstd::arithmetic::div_mod::lemma_fundamental_div_mod;
use vstd::arithmetic::div_mod::lemma_fundamental_div_mod_converse;
use vstd::arithmetic::div_mod::lemma_mod_multiples_vanish;

verus! {

/// The absolute value of an integer.
pub open spec fn abs(n: int) -> int {
    if n < 0 {
        -n
    } else {
        n
    }
}

/// The quotient of `n` by `d`, rounded towards negative infinity.
pub open spec fn div_floor(n: int, d: int) -> int {
    if d > 0 {
        n / d
    } else {
        (-n) / (-d)
    }
}

/// The quotient of `n` by `d`, rounded towards positive infinity.
pub open spec fn div_ceil(n: int, d: int) -> int {
    -div_floor(-n, d)
}

/// The greatest common divisor, by Euclid's recursion; `gcd(0, 0)` is 0.
pub open spec fn gcd(a: nat, b: nat) -> nat
    decreases b,
{
    if b == 0 {
        a
    } else {
        gcd(b, a % b)
    }
}

/// The product of two `i32` values has a magnitude of at most `2^62`.
pub proof fn lemma_i32_product_bounds(a: int, b: int)
    by (nonlinear_arith)
    requires
        i32::MIN <= a <= i32::MAX,
        i32::MIN <= b <= i32::MAX,
    ensures
        -0x4000_0000_0000_0000 <= a * b <= 0x4000_0000_0000_0000,
{
}

/// `div_floor(n, d)` is the one integer `q` with `q <= n / d < q + 1`.
pub proof fn lemma_div_floor_bounds(n: int, d: int)
    requires
        d != 0,
    ensures
        d > 0 ==> d * div_floor(n, d) <= n < d * div_floor(n, d) + d,
        d < 0 ==> d * div_floor(n, d) >= n > d * div_floor(n, d) + d,
{
    if d > 0 {
        lemma_fundamental_div_mod(n, d);
    } else {
        lemma_fundamental_div_mod(-n, -d);
        let q = (-n) / (-d);
        assert((-d) * q == -(d * q)) by (nonlinear_arith);
    }
}

/// `div_ceil(n, d)` is the one integer `q` with `q - 1 < n / d <= q`.
pub proof fn lemma_div_ceil_bounds(n: int, d: int)
    requires
        d != 0,
    ensures
        d > 0 ==> d * div_ceil(n, d) - d < n <= d * div_ceil(n, d),
        d < 0 ==> d * div_ceil(n, d) - d > n >= d * div_ceil(n, d),
{
    lemma_div_floor_bounds(-n, d);
    let q = div_floor(-n, d);
    assert(d * (-q) == -(d * q)) by (nonlinear_arith);
}

/// Where `d` divides `n`, both rounded quotients are the exact one.
pub proof fn lemma_div_exact(n: int, d: int)
    requires
        d > 0,
        n % d == 0,
    ensures
        d * div_floor(n, d) == n,
        div_ceil(n, d) == div_floor(n, d),
{
    lemma_fundamental_div_mod(n, d);
    let q = n / d;
    assert(-n == (-q) * d + 0) by (nonlinear_arith)
        requires
            n == d * q,
    ;
    lemma_fundamental_div_mod_converse(-n, d, -q, 0);
}

/// The quotient of `n` by `d`, rounded towards negative infinity.
pub fn div_floor_i64(n: i64, d: i64) -> (q: i64)
    requires
        d != 0,
        n > i64::MIN,
        d > i64::MIN,
    ensures
        q == div_floor(n as int, d as int),
{
    let p: i64 = if d > 0 {
        n
    } else {
        -n
    };
    let e: i64 = if d > 0 {
        d
    } else {
        -d
    };
    if p >= 0 {
        p / e
    } else {
        let m: i64 = -p;
        let t: i64 = m / e;
        let r: i64 = m % e;
        proof {
            lemma_fundamental_div_mod(m as int, e as int);
            if r == 0 {
                assert(p as int == (-t) * e + 0) by (nonlinear_arith)
                    requires
                        m == e * t,
                        p == -m,
                ;
                lemma_fundamental_div_mod_converse(p as int, e as int, -(t as int), 0);
            } else {
                assert(p as int == (-t - 1) * e + (e - r)) by (nonlinear_arith)
                    requires
                        m == e * t + r,
                        p == -m,
                ;
                lemma_fundamental_div_mod_converse(p as int, e as int, -(t as int) - 1, e - r);
            }
        }
        if r == 0 {
            -t
        } else {
            -t - 1
        }
    }
}

/// The quotient of `n` by `d`, rounded towards positive infinity.
pub fn div_ceil_i64(n: i64, d: i64) -> (q: i64)
    requires
        d != 0,
        n > i64::MIN,
        d > i64::MIN,
        div_floor(-(n as int), d as int) > i64::MIN,
    ensures
        q == div_ceil(n as int, d as int),
{
    -div_floor_i64(-n, d)
}

/// A common divisor of `b` and `a % b` divides `a`, and the other way round.
pub proof fn lemma_remainder_shares_divisors(a: int, b: int, d: int)
    requires
        b > 0,
        d > 0,
        b % d == 0,
    ensures
        a % d == (a % b) % d,
{
    lemma_fundamental_div_mod(a, b);
    lemma_fundamental_div_mod(b, d);
    let k = b / d;
    let q = a / b;
    assert(a == d * (k * q) + a % b) by (nonlinear_arith)
        requires
            a == b * q + a % b,
            b == d * k,
    ;
    lemma_mod_multiples_vanish(k * q, a % b, d);
}

/// `gcd(a, b)` divides both `a` and `b`.
pub proof fn lemma_gcd_divides(a: nat, b: nat)
    requires
        a > 0 || b > 0,
    ensures
        gcd(a, b) > 0,
        a % gcd(a, b) == 0,
        b % gcd(a, b) == 0,
    decreases b,
{
    if b == 0 {
        assert(a % a == 0) by (nonlinear_arith)
            requires
                a > 0,
        ;
        assert(0nat % a == 0);
    } else {
        lemma_gcd_divides(b, a % b);
        let g = gcd(a, b);
        lemma_remainder_shares_divisors(a as int, b as int, g as int);
    }
}

/// Every common divisor of `a` and `b` divides `gcd(a, b)`, so none is
/// greater.
pub proof fn lemma_gcd_greatest(a: nat, b: nat, d: nat)
    requires
        a > 0 || b > 0,
        d > 0,
        a % d == 0,
        b % d == 0,
    ensures
        gcd(a, b) % d == 0,
        d <= gcd(a, b),
    decreases b,
{
    if b == 0 {
    } else {
        lemma_remainder_shares_divisors(a as int, b as int, d as int);
        lemma_gcd_greatest(b, a % b, d);
    }
    lemma_gcd_divides(a, b);
    let g = gcd(a, b);
    if d > g {
        lemma_fundamental_div_mod(g as int, d as int);
        let k = (g as int) / (d as int);
        assert(k <= 0) by (nonlinear_arith)
            requires
                g == d * k,
                d > g,
                g > 0,
        ;
        assert(d * k <= 0) by (nonlinear_arith)
            requires
                k <= 0,
                d > 0,
        ;
    }
}

/// The greatest common divisor of two magnitudes.
pub fn gcd_u64(a: u64, b: u64) -> (g: u64)
    ensures
        g == gcd(a as nat, b as nat),
{
    let mut m = a;
    let mut n = b;
    while n != 0
        invariant
            gcd(m as nat, n as nat) == gcd(a as nat, b as nat),
        decreases n,
    {
        let r = m % n;
        m = n;
        n = r;
    }
    m
}

/// The magnitude of an `i32`.
pub fn magnitude(a: i32) -> (m: u64)
    ensures
        m == abs(a as int),
{
    if a < 0 {
        (-(a as i64)) as u64
    } else {
        a as u64
    }
}

/// The greatest common divisor of `|a|` and `|b|`. It must fit an `i32`,
/// which it does unless both arguments are among `0` and `i32::MIN` and one
/// of them is `i32::MIN`.
pub fn gcd_i32(a: i32, b: i32) -> (g: i32)
    requires
        gcd(abs(a as int) as nat, abs(b as int) as nat) <= i32::MAX,
    ensures
        g == gcd(abs(a as int) as nat, abs(b as int) as nat),
{
    gcd_u64(magnitude(a), magnitude(b)) as i32
}

/// The least common multiple of `|a|` and `|b|`; 0 where one of them is 0.
pub open spec fn lcm(a: int, b: int) -> int {
    if a == 0 || b == 0 {
        0
    } else {
        abs(a) * (abs(b) / (gcd(abs(a) as nat, abs(b) as nat) as int))
    }
}

/// The least common multiple of `|a|` and `|b|`, which must fit an `i32`.
pub fn lcm_i32(a: i32, b: i32) -> (r: i32)
    requires
        lcm(a as int, b as int) <= i32::MAX,
    ensures
        r == lcm(a as int, b as int),
{
    if a == 0 || b == 0 {
        return 0;
    }
    let size_a = magnitude(a);
    let size_b = magnitude(b);
    let divisor = gcd_u64(size_a, size_b);
    proof {
        lemma_gcd_divides(size_a as nat, size_b as nat);
        lemma_fundamental_div_mod(size_b as int, divisor as int);
        let quotient = (size_b / divisor) as int;
        assert(0 <= quotient <= size_b) by (nonlinear_arith)
            requires
                size_b == divisor * quotient,
                divisor >= 1,
                size_b >= 0,
        ;
        assert(0 <= size_a * quotient <= 0x8000_0000 * 0x8000_0000) by (nonlinear_arith)
            requires
                0 <= size_a <= 0x8000_0000,
                0 <= quotient <= 0x8000_0000,
        ;
    }
    (size_a * (size_b / divisor)) as i32
}

} // verus!
