//! Integer helpers: greatest common divisor and least common multiple.
use vstd::arithmetic::div_mod::*;
use vstd::arithmetic::mul::*;
use vstd::prelude::*;

verus! {

/// Absolute value of an integer, as a natural number.
pub open spec fn abs_nat(x: int) -> nat {
    if x < 0 {
        (-x) as nat
    } else {
        x as nat
    }
}

/// Greatest common divisor, by Euclid's recursion.
pub open spec fn gcd(a: nat, b: nat) -> nat
    decreases b,
{
    if b == 0 {
        a
    } else {
        gcd(b, a % b)
    }
}

/// Least common multiple of two positive naturals.
pub open spec fn lcm_nat(a: nat, b: nat) -> nat {
    if gcd(a, b) == 0 {
        0
    } else {
        (a / gcd(a, b)) * b
    }
}

/// `l` is the least common multiple of the positive naturals `a` and `b`:
/// a positive common multiple that divides every other common multiple.
pub open spec fn is_least_common_multiple(l: int, a: int, b: int) -> bool {
    &&& l > 0
    &&& l % a == 0
    &&& l % b == 0
    &&& forall|c: int| #![trigger c % l] c % a == 0 && c % b == 0 ==> c % l == 0
}

/// Bezout coefficients `(x, y)` with `a * x + b * y == gcd(a, b)`.
pub open spec fn bezout(a: nat, b: nat) -> (int, int)
    decreases b,
{
    if b == 0 {
        (1, 0)
    } else {
        let (x, y) = bezout(b, a % b);
        (y, x - (a / b) as int * y)
    }
}

pub proof fn lemma_gcd_positive(a: nat, b: nat)
    requires
        a > 0 || b > 0,
    ensures
        gcd(a, b) > 0,
    decreases b,
{
    if b != 0 {
        lemma_gcd_positive(b, a % b);
    }
}

/// The greatest common divisor divides both of its arguments.
pub proof fn lemma_gcd_divides(a: nat, b: nat)
    requires
        a > 0 || b > 0,
    ensures
        (a as int) % (gcd(a, b) as int) == 0,
        (b as int) % (gcd(a, b) as int) == 0,
    decreases b,
{
    lemma_gcd_positive(a, b);
    let g = gcd(a, b) as int;
    if b == 0 {
        lemma_mod_self_0(a as int);
    } else {
        let r = a % b;
        lemma_gcd_divides(b, r);
        // a == b * q + r, with g dividing b and r
        lemma_fundamental_div_mod(a as int, b as int);
        let q = (a / b) as int;
        lemma_fundamental_div_mod(b as int, g);
        lemma_fundamental_div_mod(r as int, g);
        let kb = b as int / g;
        let kr = r as int / g;
        assert(b as int == g * kb);
        assert(r as int == g * kr);
        assert(a as int == g * (kb * q + kr)) by {
            lemma_mul_is_associative(g, kb, q);
            lemma_mul_is_distributive_add(g, kb * q, kr);
        }
        lemma_mul_is_commutative(g, kb * q + kr);
        lemma_mod_multiples_basic(kb * q + kr, g);
    }
}

/// Bezout's identity for the coefficients computed by `bezout`.
pub proof fn lemma_bezout(a: nat, b: nat)
    ensures
        a as int * bezout(a, b).0 + b as int * bezout(a, b).1 == gcd(a, b) as int,
    decreases b,
{
    if b != 0 {
        lemma_bezout(b, a % b);
        let (x, y) = bezout(b, a % b);
        let q = (a / b) as int;
        let r = (a % b) as int;
        lemma_fundamental_div_mod(a as int, b as int);
        assert(a as int == b * q + r);
        // a*y + b*(x - q*y) == b*x + (a - b*q)*y == b*x + r*y
        assert(a as int * y + b as int * (x - q * y) == b as int * x + r * y) by (nonlinear_arith)
            requires
                a as int == b * q + r,
        ;
    }
}

/// The least common multiple divides every common multiple.
pub proof fn lemma_lcm_is_least(a: nat, b: nat)
    requires
        a > 0,
        b > 0,
    ensures
        is_least_common_multiple(lcm_nat(a, b) as int, a as int, b as int),
{
    lemma_gcd_positive(a, b);
    lemma_gcd_divides(a, b);
    lemma_bezout(a, b);
    let g = gcd(a, b) as int;
    let (x, y) = bezout(a, b);
    lemma_fundamental_div_mod(a as int, g);
    let ka = a as int / g;
    assert(a as int == g * ka);
    let l = ka * b;
    assert(lcm_nat(a, b) as int == l);
    assert(ka > 0) by (nonlinear_arith)
        requires
            a as int == g * ka,
            a > 0,
            g > 0,
    ;
    assert(l > 0) by (nonlinear_arith)
        requires
            ka > 0,
            b > 0,
            l == ka * b,
    ;
    // l == a * (b / g)
    lemma_fundamental_div_mod(b as int, g);
    let kb = b as int / g;
    assert(b as int == g * kb);
    assert(l == a * kb) by (nonlinear_arith)
        requires
            l == ka * b,
            a as int == g * ka,
            b as int == g * kb,
    ;
    assert(l % (a as int) == 0) by {
        lemma_mul_is_commutative(a as int, kb);
        lemma_mod_multiples_basic(kb, a as int);
    }
    assert(l % (b as int) == 0) by {
        lemma_mod_multiples_basic(ka, b as int);
    }
    assert forall|c: int| #![trigger c % l] c % (a as int) == 0 && c % (b as int) == 0 implies c % l
        == 0 by {
        lemma_fundamental_div_mod(c, a as int);
        lemma_fundamental_div_mod(c, b as int);
        let s = c / (a as int);
        let t = c / (b as int);
        assert(c == a * s);
        assert(c == b * t);
        // c * g == c * (a*x + b*y) == (b*t)*a*x + (a*s)*b*y == l * g * (t*x + s*y)
        let ab = a as int * b as int;
        assert(ab == l * g) by (nonlinear_arith)
            requires
                l == ka * b,
                a as int == g * ka,
                ab == a as int * b as int,
        ;
        assert(c * g == c * (a * x) + c * (b * y)) by (nonlinear_arith)
            requires
                a * x + b * y == g,
        ;
        assert(c * (a * x) == (t * x) * ab) by (nonlinear_arith)
            requires
                c == b * t,
                ab == a as int * b as int,
        ;
        assert(c * (b * y) == (s * y) * ab) by (nonlinear_arith)
            requires
                c == a * s,
                ab == a as int * b as int,
        ;
        assert(c * g == l * g * (t * x + s * y)) by (nonlinear_arith)
            requires
                c * g == (t * x) * ab + (s * y) * ab,
                ab == l * g,
        ;
        assert(c == l * (t * x + s * y)) by (nonlinear_arith)
            requires
                c * g == l * g * (t * x + s * y),
                g > 0,
        ;
        lemma_mul_is_commutative(l, t * x + s * y);
        lemma_mod_multiples_basic(t * x + s * y, l);
    }
}

/// A positive multiple of a positive number is at least that number.
proof fn lemma_multiple_at_least(l: int, a: int)
    requires
        l > 0,
        a > 0,
        l % a == 0,
    ensures
        l >= a,
{
    lemma_fundamental_div_mod(l, a);
    let k = l / a;
    assert(l == a * k);
    assert(l >= a) by (nonlinear_arith)
        requires
            l == a * k,
            l > 0,
            a > 0,
    ;
}

/// Greatest common divisor of two unsigned integers, by Euclid's algorithm.
fn gcd_u64(a: u64, b: u64) -> (g: u64)
    ensures
        g == gcd(a as nat, b as nat),
{
    let mut x = a;
    let mut y = b;
    while y != 0
        invariant
            gcd(x as nat, y as nat) == gcd(a as nat, b as nat),
        decreases y,
    {
        let r = x % y;
        x = y;
        y = r;
    }
    x
}

/// Absolute value of a signed integer, widened so that `i64::MIN` fits.
fn abs_u64(a: i64) -> (r: u64)
    ensures
        r == abs_nat(a as int),
{
    if a < 0 {
        (-(a as i128)) as u64
    } else {
        a as u64
    }
}

/// Compute the lowest common multiple between a and b.
///
/// Returns `None` when either argument is zero; otherwise the least positive
/// common multiple of `|a|` and `|b|`.
pub fn lcm(a: i64, b: i64) -> (r: Option<i64>)
    requires
        a != 0 && b != 0 ==> lcm_nat(abs_nat(a as int), abs_nat(b as int)) <= i64::MAX,
    ensures
        r is None <==> (a == 0 || b == 0),
        r matches Some(l) ==> l as int == lcm_nat(abs_nat(a as int), abs_nat(b as int)),
        r matches Some(l) ==> is_least_common_multiple(l as int, abs_nat(a as int) as int, abs_nat(b as int) as int),
{
    if a == 0 || b == 0 {
        return None;
    }
    let ua = abs_u64(a);
    let ub = abs_u64(b);
    let g = gcd_u64(ua, ub);
    proof {
        lemma_gcd_positive(ua as nat, ub as nat);
        lemma_lcm_is_least(ua as nat, ub as nat);
    }
    let q = ua / g;
    assert(q as int * ub as int == lcm_nat(ua as nat, ub as nat));
    let l = q * ub;
    Some(l as i64)
}

/// Compute the lowest common denominator between a and b.
///
/// The lowest common denominator of the fractions `1/a` and `1/b`: `None`
/// when either argument is zero, otherwise the least positive common multiple
/// of `|a|` and `|b|`.
pub fn lcd(a: i64, b: i64) -> (r: Option<i64>)
    requires
        a != 0 && b != 0 ==> lcm_nat(abs_nat(a as int), abs_nat(b as int)) <= i64::MAX,
    ensures
        r is None <==> (a == 0 || b == 0),
        r matches Some(l) ==> l as int == lcm_nat(abs_nat(a as int), abs_nat(b as int)),
        r matches Some(l) ==> is_least_common_multiple(l as int, abs_nat(a as int) as int, abs_nat(b as int) as int),
{
    if a == 0 || b == 0 {
        return None;
    }
    proof {
        let ua = abs_nat(a as int);
        let ub = abs_nat(b as int);
        lemma_lcm_is_least(ua, ub);
        lemma_multiple_at_least(lcm_nat(ua, ub) as int, ua as int);
        lemma_multiple_at_least(lcm_nat(ua, ub) as int, ub as int);
    }
    let a = if a < 0 { 0 - a } else { a };
    let b = if b < 0 { 0 - b } else { b };
    lcm(a, b)
}


/// Two least common multiples of the same numbers are equal.
pub proof fn lemma_least_common_multiple_unique(l1: int, l2: int, a: int, b: int)
    requires
        is_least_common_multiple(l1, a, b),
        is_least_common_multiple(l2, a, b),
    ensures
        l1 == l2,
{
    assert(l1 % l2 == 0);
    assert(l2 % l1 == 0);
    lemma_multiple_at_least(l1, l2);
    lemma_multiple_at_least(l2, l1);
}

/// The least common multiple does not depend on the order of its arguments.
pub proof fn lemma_lcm_commutative(a: nat, b: nat)
    requires
        a > 0,
        b > 0,
    ensures
        lcm_nat(a, b) == lcm_nat(b, a),
{
    lemma_lcm_is_least(a, b);
    lemma_lcm_is_least(b, a);
    let l1 = lcm_nat(a, b) as int;
    let l2 = lcm_nat(b, a) as int;
    assert forall|c: int| #![trigger c % l2] c % (a as int) == 0 && c % (b as int) == 0 implies c % l2 == 0 by {
        assert(c % (b as int) == 0 && c % (a as int) == 0);
    }
    lemma_least_common_multiple_unique(l1, l2, a as int, b as int);
}

} // verus!
