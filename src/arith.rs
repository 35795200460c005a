//! Greatest common divisor and least common multiple.

use vstd::prelude::*;
use vstd::arithmetic::div_mod::{lemma_fundamental_div_mod, lemma_mod_multiples_basic};
use vstd::arithmetic::mul::lemma_mul_is_commutative;

verus! {

/// Euclid's greatest common divisor.
pub open spec fn gcd_spec(a: nat, b: nat) -> nat
    decreases b,
{
    if b == 0 {
        a
    } else {
        gcd_spec(b, a % b)
    }
}

/// The least common multiple, through the greatest common divisor.
pub open spec fn lcm_spec(a: nat, b: nat) -> nat {
    if gcd_spec(a, b) == 0 {
        0
    } else {
        a / gcd_spec(a, b) * b
    }
}

/// The greatest common divisor of `a` and `b`.
pub fn gcd(a: usize, b: usize) -> (r: usize)
    ensures
        r == gcd_spec(a as nat, b as nat),
{
    let mut x = a;
    let mut y = b;
    while y != 0
        invariant
            gcd_spec(x as nat, y as nat) == gcd_spec(a as nat, b as nat),
        decreases y,
    {
        let t = x % y;
        x = y;
        y = t;
    }
    x
}

/// The least common multiple of `a` and `b`, of which one is not zero.
pub fn lcm(a: usize, b: usize) -> (r: usize)
    requires
        a > 0 || b > 0,
        lcm_spec(a as nat, b as nat) <= usize::MAX,
    ensures
        r == lcm_spec(a as nat, b as nat),
{
    let g = gcd(a, b);
    proof {
        lemma_gcd_divides(a as nat, b as nat);
        lemma_multiple_of(a as int, g as int);
        assert(a / g <= a) by (nonlinear_arith)
            requires
                g > 0,
                a as int == (a / g) * g,
        ;
    }
    a / g * b
}

/// Three to the power `n`.
pub open spec fn pow3(n: nat) -> nat
    decreases n,
{
    if n == 0 {
        1
    } else {
        3 * pow3((n - 1) as nat)
    }
}

/// Powers of three multiply by adding exponents.
pub proof fn lemma_pow3_adds(a: nat, b: nat)
    ensures
        pow3(a + b) as int == (pow3(a) as int) * (pow3(b) as int),
    decreases b,
{
    if b > 0 {
        let b1 = (b - 1) as nat;
        lemma_pow3_adds(a, b1);
        assert(pow3(a + b) == 3 * pow3(a + b1));
        assert(pow3(b) == 3 * pow3(b1));
        let x = pow3(a) as int;
        let y = pow3(b1) as int;
        assert(3 * (x * y) == x * (3 * y)) by (nonlinear_arith);
        assert(pow3(a + b) as int == 3 * (x * y));
        assert(pow3(b) as int == 3 * y);
        let z = pow3(b) as int;
        assert(x * z == x * (3 * y)) by (nonlinear_arith)
            requires
                z == 3 * y,
        ;
    } else {
        assert(a + b == a);
        let x = pow3(a) as int;
        let z = pow3(b) as int;
        assert(z == 1);
        assert(x * z == x) by (nonlinear_arith)
            requires
                z == 1,
        ;
    }
}

/// Powers of three grow with the exponent.
pub proof fn lemma_pow3_monotonic(a: nat, b: nat)
    requires
        a <= b,
    ensures
        pow3(a) <= pow3(b),
    decreases b,
{
    if a < b {
        lemma_pow3_monotonic(a, (b - 1) as nat);
    }
}

/// The cube of `n` is at most three to the power `n`.
pub proof fn lemma_cube_le_pow3(n: nat)
    ensures
        (n as int) * (n as int) * (n as int) <= pow3(n) as int,
    decreases n,
{
    reveal_with_fuel(pow3, 4);
    let x = n as int;
    if n < 4 {
        assert(x * x * x <= pow3(n) as int) by (nonlinear_arith)
            requires
                0 <= x < 4,
                x == 0 ==> pow3(n) == 1,
                x == 1 ==> pow3(n) == 3,
                x == 2 ==> pow3(n) == 9,
                x == 3 ==> pow3(n) == 27,
        ;
    } else {
        let m = (n - 1) as nat;
        lemma_cube_le_pow3(m);
        let y = m as int;
        assert(y * y * y >= 3 * (y * y)) by (nonlinear_arith)
            requires
                y >= 3,
        ;
        assert(y * y >= 3 * y) by (nonlinear_arith)
            requires
                y >= 3,
        ;
        assert(x * x * x == y * y * y + 3 * (y * y) + 3 * y + 1) by (nonlinear_arith)
            requires
                x == y + 1,
        ;
        assert(pow3(n) == 3 * pow3(m));
    }
}

/// A multiple of `g` is `g` times its quotient.
proof fn lemma_multiple_of(x: int, g: int)
    requires
        g > 0,
        x % g == 0,
    ensures
        x == (x / g) * g,
{
    lemma_fundamental_div_mod(x, g);
    lemma_mul_is_commutative(g, x / g);
}

/// The greatest common divisor divides both arguments, and is positive
/// unless both are zero.
pub proof fn lemma_gcd_divides(a: nat, b: nat)
    ensures
        (a > 0 || b > 0) ==> gcd_spec(a, b) > 0,
        gcd_spec(a, b) > 0 ==> a % gcd_spec(a, b) == 0 && b % gcd_spec(a, b) == 0,
    decreases b,
{
    if b > 0 {
        let r = a % b;
        let q = a / b;
        lemma_gcd_divides(b, r);
        let g = gcd_spec(b, r) as int;
        lemma_fundamental_div_mod(a as int, b as int);
        lemma_multiple_of(b as int, g);
        lemma_multiple_of(r as int, g);
        let kb = (b as int) / g;
        let kr = (r as int) / g;
        assert(q * (kb * g) + kr * g == (q * kb + kr) * g) by (nonlinear_arith);
        assert((b as int) * q == q * (kb * g)) by (nonlinear_arith)
            requires
                b as int == kb * g,
        ;
        assert(a as int == (q * kb + kr) * g);
        lemma_mod_multiples_basic(q * kb + kr, g);
    }
}

/// The greatest common divisor is an integer combination of the arguments.
pub proof fn lemma_gcd_bezout(a: nat, b: nat) -> (st: (int, int))
    ensures
        gcd_spec(a, b) == st.0 * a + st.1 * b,
    decreases b,
{
    if b == 0 {
        (1, 0)
    } else {
        let r = a % b;
        let q = a / b;
        let st = lemma_gcd_bezout(b, r);
        lemma_fundamental_div_mod(a as int, b as int);
        let s = st.0;
        let t = st.1;
        assert(s * b + t * r == t * a + (s - t * q) * b) by (nonlinear_arith)
            requires
                a == b * q + r,
        ;
        (t, s - t * q)
    }
}

/// For positive arguments the least common multiple is a positive common
/// multiple, at most their product.
pub proof fn lemma_lcm_multiple(a: nat, b: nat)
    requires
        a > 0,
        b > 0,
    ensures
        lcm_spec(a, b) > 0,
        lcm_spec(a, b) % a == 0,
        lcm_spec(a, b) % b == 0,
        lcm_spec(a, b) <= a * b,
{
    lemma_gcd_divides(a, b);
    let g = gcd_spec(a, b) as int;
    let l = lcm_spec(a, b) as int;
    lemma_multiple_of(a as int, g);
    lemma_multiple_of(b as int, g);
    let ka = (a as int) / g;
    let kb = (b as int) / g;
    assert(l == ka * b);
    assert(ka > 0) by (nonlinear_arith)
        requires
            a as int == ka * g,
            a > 0,
            g > 0,
    ;
    assert(ka <= a) by (nonlinear_arith)
        requires
            a as int == ka * g,
            ka > 0,
            g > 0,
    ;
    assert(l > 0) by (nonlinear_arith)
        requires
            l == ka * b,
            ka > 0,
            b > 0,
    ;
    assert(l <= a * b) by (nonlinear_arith)
        requires
            l == ka * b,
            ka <= a,
            b > 0,
    ;
    assert(l == kb * a) by (nonlinear_arith)
        requires
            l == ka * b,
            a as int == ka * g,
            b as int == kb * g,
    ;
    lemma_mod_multiples_basic(ka, b as int);
    lemma_mod_multiples_basic(kb, a as int);
}

/// The cube of a least common multiple is at most the product of the cubes.
pub proof fn lemma_lcm_cube(a: nat, b: nat)
    requires
        a > 0,
        b > 0,
    ensures
        ({
            let l = lcm_spec(a, b) as int;
            l * l * l
        }) <= ((a as int) * (a as int) * (a as int)) * ((b as int) * (b as int) * (b as int)),
{
    lemma_lcm_multiple(a, b);
    let l = lcm_spec(a, b) as int;
    let x = a as int;
    let y = b as int;
    assert(l * l * l <= (x * y) * (x * y) * (x * y)) by (nonlinear_arith)
        requires
            0 < l <= x * y,
    ;
    assert((x * y) * (x * y) * (x * y) == (x * x * x) * (y * y * y)) by (nonlinear_arith);
}

/// A running least common multiple whose cube is at most three to the
/// power `s` keeps that bound when a factor `b` joins it, and stays small
/// while `s + b` is at most 54.
pub proof fn lemma_lcm_bound_step(a: nat, b: nat, s: nat)
    requires
        a > 0,
        b > 0,
        (a as int) * (a as int) * (a as int) <= pow3(s) as int,
        s + b <= 54,
    ensures
        lcm_spec(a, b) > 0,
        ({
            let l = lcm_spec(a, b) as int;
            l * l * l
        }) <= pow3(s + b) as int,
        lcm_spec(a, b) <= 387420489,
{
    lemma_lcm_multiple(a, b);
    lemma_lcm_cube(a, b);
    lemma_cube_le_pow3(b);
    lemma_pow3_adds(s, b);
    let l = lcm_spec(a, b) as int;
    let a3 = (a as int) * (a as int) * (a as int);
    let b3 = (b as int) * (b as int) * (b as int);
    let ps = pow3(s) as int;
    let pb = pow3(b) as int;
    assert(a3 * b3 <= ps * pb) by (nonlinear_arith)
        requires
            0 <= a3 <= ps,
            0 <= b3 <= pb,
    ;
    assert(l * l * l <= pow3(s + b) as int);
    lemma_pow3_monotonic(s + b, 54);
    lemma_pow3_adds(18, 36);
    lemma_pow3_adds(18, 18);
    reveal_with_fuel(pow3, 19);
    let t = pow3(18) as int;
    assert(t == 387420489);
    assert(pow3(54) as int == t * t * t) by (nonlinear_arith)
        requires
            pow3(54) as int == t * (pow3(36) as int),
            pow3(36) as int == t * t,
    ;
    assert(l <= t) by (nonlinear_arith)
        requires
            l * l * l <= t * t * t,
            l > 0,
            t > 0,
    ;
}

/// Every common multiple of positive arguments is a multiple of their least
/// common multiple.
pub proof fn lemma_lcm_least(a: nat, b: nat, m: int)
    requires
        a > 0,
        b > 0,
        m % (a as int) == 0,
        m % (b as int) == 0,
    ensures
        m % (lcm_spec(a, b) as int) == 0,
{
    lemma_gcd_divides(a, b);
    let st = lemma_gcd_bezout(a, b);
    let g = gcd_spec(a, b) as int;
    let l = lcm_spec(a, b) as int;
    let s = st.0;
    let t = st.1;
    let ai = a as int;
    let bi = b as int;
    lemma_multiple_of(ai, g);
    lemma_multiple_of(m, ai);
    lemma_multiple_of(m, bi);
    let ka = ai / g;
    let u = m / ai;
    let w = m / bi;
    assert(l == ka * bi);
    let c = s * w + t * u;
    let x = ai * bi;
    assert(m * g == s * (m * ai) + t * (m * bi)) by (nonlinear_arith)
        requires
            g == s * ai + t * bi,
    ;
    assert(m * ai == w * x) by (nonlinear_arith)
        requires
            m == w * bi,
            x == ai * bi,
    ;
    assert(m * bi == u * x) by (nonlinear_arith)
        requires
            m == u * ai,
            x == ai * bi,
    ;
    assert(s * (w * x) + t * (u * x) == c * x) by (nonlinear_arith)
        requires
            c == s * w + t * u,
    ;
    assert(m * g == c * (ai * bi));
    assert(ai * bi == l * g) by (nonlinear_arith)
        requires
            ai == ka * g,
            l == ka * bi,
    ;
    assert(m * g == (c * l) * g) by (nonlinear_arith)
        requires
            m * g == c * (ai * bi),
            ai * bi == l * g,
    ;
    assert(m == c * l) by (nonlinear_arith)
        requires
            m * g == (c * l) * g,
            g > 0,
    ;
    lemma_lcm_multiple(a, b);
    lemma_mod_multiples_basic(c, l);
}

} // verus!
