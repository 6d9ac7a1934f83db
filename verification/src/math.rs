//! Integer mathematics.

use vstd::prelude::*;

verus! {

/// `ceil(n0 / n1)` over the naturals.
pub open spec fn spec_ceil_div(n0: nat, n1: nat) -> nat
    recommends
        n1 > 0,
{
    if n0 % n1 != 0 {
        n0 / n1 + 1
    } else {
        n0 / n1
    }
}

/// Computes `ceil(n0 / n1)`.
pub fn ceil_div(n0: usize, n1: usize) -> (q: usize)
    requires
        n1 != 0,
    ensures
        q == spec_ceil_div(n0 as nat, n1 as nat),
        (q as int) * (n1 as int) >= n0,
        q > 0 ==> (q - 1) * (n1 as int) < n0,
{
    proof {
        vstd::arithmetic::div_mod::lemma_fundamental_div_mod(n0 as int, n1 as int);
        vstd::arithmetic::div_mod::lemma_mod_bound(n0 as int, n1 as int);
        vstd::arithmetic::div_mod::lemma_div_pos_is_pos(n0 as int, n1 as int);
        let d = n0 as int / n1 as int;
        assert((d + 1) * (n1 as int) == d * n1 + n1) by (nonlinear_arith);
        assert(d * (n1 as int) == (n1 as int) * d) by (nonlinear_arith);
        assert((d - 1) * (n1 as int) == d * n1 - n1) by (nonlinear_arith);
        assert(n1 >= 2 ==> d < n0 || n0 == 0) by (nonlinear_arith)
            requires
                d * (n1 as int) <= n0,
                d >= 0,
        ;
    }
    if n0 % n1 != 0 {
        n0 / n1 + 1
    } else {
        n0 / n1
    }
}

/// Computes `2^n`.
pub fn pow2(n: u64) -> (r: u64)
    requires
        n < 64,
    ensures
        r == vstd::arithmetic::power2::pow2(n as nat),
{
    proof {
        vstd::bits::lemma_u64_pow2_no_overflow(n as nat);
        vstd::bits::lemma_u64_shl_is_mul(1u64, n);
    }
    1u64 << n
}

/// Integer quotient rounded towards zero, as the machine divides signed numbers.
pub open spec fn spec_div_trunc(a: int, b: int) -> int
    recommends
        b != 0,
{
    if a >= 0 {
        if b > 0 {
            a / b
        } else {
            -(a / (-b))
        }
    } else {
        if b > 0 {
            -((-a) / b)
        } else {
            (-a) / (-b)
        }
    }
}

/// The value at `x` of the line through `(a_x, a_y)` and `(b_x, b_y)`, rounded towards zero.
pub open spec fn spec_interpolation(x: int, a_x: int, a_y: int, b_x: int, b_y: int) -> int
    recommends
        a_x != b_x,
{
    a_y + spec_div_trunc((x - a_x) * (b_y - a_y), b_x - a_x)
}

/// Tells whether `v` fits in a signed 64 bit integer.
pub open spec fn fits_i64(v: int) -> bool {
    i64::MIN <= v <= i64::MAX
}

/// Divides `a` by `b`, rounding towards zero. The division is made on 128
/// bits, so that the least number can be an operand and the quotient of the
/// least number by minus one a result.
fn div_trunc(a: i64, b: i64) -> (q: i128)
    requires
        b != 0,
    ensures
        q == spec_div_trunc(a as int, b as int),
        -(i64::MAX as int) - 1 <= q <= (i64::MAX as int) + 1,
{
    let wide_a: i128 = a as i128;
    let wide_b: i128 = b as i128;
    if wide_a >= 0 {
        if wide_b > 0 {
            wide_a / wide_b
        } else {
            -(wide_a / (-wide_b))
        }
    } else {
        if wide_b > 0 {
            -((-wide_a) / wide_b)
        } else {
            (-wide_a) / (-wide_b)
        }
    }
}

/// Computes a linear interpolation over integers: the value at `x` of the line
/// through the points `(a_x, a_y)` and `(b_x, b_y)`.
pub fn integer_linear_interpolation(x: i64, a_x: i64, a_y: i64, b_x: i64, b_y: i64) -> (y: i64)
    requires
        a_x != b_x,
        fits_i64(x - a_x),
        fits_i64(b_y - a_y),
        fits_i64(b_x - a_x),
        fits_i64((x - a_x) * (b_y - a_y)),
        fits_i64(spec_interpolation(x as int, a_x as int, a_y as int, b_x as int, b_y as int)),
    ensures
        y == spec_interpolation(x as int, a_x as int, a_y as int, b_x as int, b_y as int),
{
    let num: i64 = (x - a_x) * (b_y - a_y);
    let den: i64 = b_x - a_x;
    let wide: i128 = a_y as i128 + div_trunc(num, den);
    wide as i64
}

/// The next value of the linear congruential generator with the parameters
/// `a`, `c` and `m`, computed on 32 bits.
pub open spec fn spec_pseudo_rand(x: u32, a: u32, c: u32, m: u32) -> int
    recommends
        m != 0,
{
    ((((a as int) * (x as int)) % 0x1_0000_0000 + (c as int)) % 0x1_0000_0000) % (m as int)
}

/// Pseudo random number generation based on a linear congruential generator.
///
/// `x` is the seed or the previous value; the next one is `(a * x + c) % m`,
/// where the product and the sum wrap around on 32 bits.
pub fn pseudo_rand(x: u32, a: u32, c: u32, m: u32) -> (r: u32)
    requires
        m != 0,
    ensures
        r == spec_pseudo_rand(x, a, c, m),
        r < m,
{
    a.wrapping_mul(x).wrapping_add(c) % m
}

/// Tells whether `d` divides `n`.
pub open spec fn divides(d: nat, n: nat) -> bool {
    if d == 0 {
        n == 0
    } else {
        n % d == 0
    }
}

/// Tells whether `g` is the greatest common divisor of `a` and `b`: it divides
/// both, and every number that divides both divides it.
pub open spec fn is_gcd(a: nat, b: nat, g: nat) -> bool {
    &&& divides(g, a)
    &&& divides(g, b)
    &&& forall|d: nat| divides(d, a) && divides(d, b) ==> #[trigger] divides(d, g)
}

/// A multiple of `d` is divisible by `d`.
pub proof fn lemma_multiple_divides(d: nat, k: nat)
    ensures
        divides(d, d * k),
{
    if d != 0 {
        vstd::arithmetic::div_mod::lemma_mod_multiples_basic(k as int, d as int);
        assert(k * d == d * k) by (nonlinear_arith);
    } else {
        assert(d * k == 0) by (nonlinear_arith)
            requires
                d == 0,
        ;
    }
}

/// A number divisible by `d` is `d` times its quotient by `d`.
pub proof fn lemma_divides_quotient(d: nat, n: nat) -> (k: nat)
    requires
        divides(d, n),
    ensures
        d * k == n,
{
    if d == 0 {
        0
    } else {
        vstd::arithmetic::div_mod::lemma_fundamental_div_mod(n as int, d as int);
        vstd::arithmetic::div_mod::lemma_div_pos_is_pos(n as int, d as int);
        n / d
    }
}

/// A common divisor of `a` and `b` with `b != 0` divides `a % b`, and a common
/// divisor of `b` and `a % b` divides `a`.
pub proof fn lemma_divides_mod(d: nat, a: nat, b: nat)
    requires
        b != 0,
    ensures
        divides(d, a) && divides(d, b) ==> divides(d, a % b),
        divides(d, b) && divides(d, a % b) ==> divides(d, a),
{
    vstd::arithmetic::div_mod::lemma_fundamental_div_mod(a as int, b as int);
    let q = a / b;
    let r = a % b;
    if divides(d, a) && divides(d, b) {
        let ka = lemma_divides_quotient(d, a);
        let kb = lemma_divides_quotient(d, b);
        assert(d * (ka - kb * q) == r) by (nonlinear_arith)
            requires
                d * ka == a,
                d * kb == b,
                a == b * q + r,
        ;
        if d != 0 {
            assert(ka - kb * q >= 0) by (nonlinear_arith)
                requires
                    d * (ka - kb * q) == r,
                    d > 0,
                    r >= 0,
            ;
            lemma_multiple_divides(d, (ka - kb * q) as nat);
        }
    }
    if divides(d, b) && divides(d, r) {
        let kb = lemma_divides_quotient(d, b);
        let kr = lemma_divides_quotient(d, r);
        let k: nat = kb * q + kr;
        assert(d * k == a) by (nonlinear_arith)
            requires
                d * kb == b,
                d * kr == r,
                a == b * q + r,
                k == kb * q + kr,
        ;
        lemma_multiple_divides(d, k);
    }
}

/// Two numbers have at most one greatest common divisor.
pub proof fn lemma_gcd_unique(a: nat, b: nat, g: nat, h: nat)
    requires
        is_gcd(a, b, g),
        is_gcd(a, b, h),
    ensures
        g == h,
{
    assert(divides(g, h));
    assert(divides(h, g));
    let k1 = lemma_divides_quotient(g, h);
    let k2 = lemma_divides_quotient(h, g);
    assert(g == h) by (nonlinear_arith)
        requires
            g * k1 == h,
            h * k2 == g,
    ;
}

/// Returns the greatest common divisor of the two given numbers.
pub fn gcd(a: u64, b: u64) -> (g: u64)
    ensures
        is_gcd(a as nat, b as nat, g as nat),
{
    let mut x: u64 = a;
    let mut y: u64 = b;
    while y != 0
        invariant
            forall|d: nat|
                #![trigger divides(d, x as nat)]
                #![trigger divides(d, y as nat)]
                (divides(d, a as nat) && divides(d, b as nat)) <==> (divides(d, x as nat)
                    && divides(d, y as nat)),
        decreases y,
    {
        let r: u64 = x % y;
        proof {
            assert forall|d: nat|
                #![trigger divides(d, y as nat)]
                #![trigger divides(d, r as nat)]
                (divides(d, a as nat) && divides(d, b as nat)) <==> (divides(d, y as nat)
                    && divides(d, r as nat)) by {
                lemma_divides_mod(d, x as nat, y as nat);
                assert((x as nat) % (y as nat) == r as nat);
            }
        }
        x = y;
        y = r;
    }
    proof {
        lemma_multiple_divides(x as nat, 1);
        assert((x as nat) * 1 == x as nat);
    }
    x
}

} // verus!
