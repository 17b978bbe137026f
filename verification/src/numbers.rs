//! Divisibility, greatest common divisors and least common multiples of
//! unsigned integers.

use vstd::arithmetic::div_mod::{
    lemma_fundamental_div_mod, lemma_mod_multiples_basic, lemma_small_mod,
};
use vstd::prelude::*;

verus! {

/// `d` is positive and divides both `a` and `b`.
pub open spec fn common_divisor(a: nat, b: nat, d: nat) -> bool {
    d > 0 && a % d == 0 && b % d == 0
}

/// `m` is positive and a multiple of both `a` and `b`, which are positive.
pub open spec fn common_multiple(a: nat, b: nat, m: nat) -> bool {
    a > 0 && b > 0 && m > 0 && m % a == 0 && m % b == 0
}

/// `g` is the greatest common divisor of `a` and `b`; by convention the
/// greatest common divisor of zero and zero is zero.
pub open spec fn is_gcd(a: nat, b: nat, g: nat) -> bool {
    if a == 0 && b == 0 {
        g == 0
    } else {
        &&& common_divisor(a, b, g)
        &&& forall|d: nat| #[trigger] common_divisor(a, b, d) ==> d <= g
    }
}

/// `l` is the least common multiple of `a` and `b`; it is zero when either
/// of them is zero.
pub open spec fn is_lcm(a: nat, b: nat, l: nat) -> bool {
    if a == 0 || b == 0 {
        l == 0
    } else {
        &&& common_multiple(a, b, l)
        &&& forall|m: nat| #[trigger] common_multiple(a, b, m) ==> l <= m
    }
}

/// The greatest common divisor of `a` and `b`.
pub open spec fn gcd_of(a: nat, b: nat) -> nat {
    choose|g: nat| is_gcd(a, b, g)
}

/// Some common multiple of `a` and `b` fits in 64 bits, or one of them is zero.
pub open spec fn lcm_fits(a: nat, b: nat) -> bool {
    a == 0 || b == 0 || exists|m: nat| #[trigger] common_multiple(a, b, m) && m <= u64::MAX
}

/// Two numbers that are both the greatest common divisor of a pair are equal.
pub proof fn lemma_gcd_unique(a: nat, b: nat, g1: nat, g2: nat)
    requires
        is_gcd(a, b, g1),
        is_gcd(a, b, g2),
    ensures
        g1 == g2,
{
    if !(a == 0 && b == 0) {
        assert(common_divisor(a, b, g1));
        assert(common_divisor(a, b, g2));
    }
}

/// Two numbers that are both the least common multiple of a pair are equal.
pub proof fn lemma_lcm_unique(a: nat, b: nat, l1: nat, l2: nat)
    requires
        is_lcm(a, b, l1),
        is_lcm(a, b, l2),
    ensures
        l1 == l2,
{
    if !(a == 0 || b == 0) {
        assert(common_multiple(a, b, l1));
        assert(common_multiple(a, b, l2));
    }
}

/// Divisibility is transitive.
pub proof fn lemma_divides_transitive(a: nat, b: nat, c: nat)
    requires
        a > 0,
        b > 0,
        b % a == 0,
        c % b == 0,
    ensures
        c % a == 0,
{
    lemma_fundamental_div_mod(b as int, a as int);
    lemma_fundamental_div_mod(c as int, b as int);
    let j = (b / a) as int;
    let k = (c / b) as int;
    assert(c == (k * j) * a) by (nonlinear_arith)
        requires
            b == a * j,
            c == b * k,
    ;
    lemma_mod_multiples_basic(k * j, a as int);
}

/// The remainder of one multiple of `a` by another is again a multiple of `a`.
pub proof fn lemma_remainder_of_multiples(a: nat, l: nat, m: nat)
    requires
        a > 0,
        l > 0,
        l % a == 0,
        m % a == 0,
    ensures
        (m % l) % a == 0,
{
    lemma_fundamental_div_mod(l as int, a as int);
    lemma_fundamental_div_mod(m as int, a as int);
    lemma_fundamental_div_mod(m as int, l as int);
    let j = (l / a) as int;
    let k = (m / a) as int;
    let q = (m / l) as int;
    let r = (m % l) as int;
    assert(r == (k - j * q) * a) by (nonlinear_arith)
        requires
            l == a * j,
            m == a * k,
            m == l * q + r,
    ;
    lemma_mod_multiples_basic(k - j * q, a as int);
}

/// The least common multiple of two numbers divides each of their common
/// multiples.
pub proof fn lemma_lcm_divides(a: nat, b: nat, l: nat, m: nat)
    requires
        is_lcm(a, b, l),
        common_multiple(a, b, m),
    ensures
        m % l == 0,
{
    let r = m % l;
    lemma_remainder_of_multiples(a, l, m);
    lemma_remainder_of_multiples(b, l, m);
    if r > 0 {
        assert(common_multiple(a, b, r));
    }
}

/// Above any common divisor of two numbers, the first of them positive,
/// lies their greatest common divisor.
pub proof fn lemma_gcd_above(a: nat, b: nat, d: nat) -> (g: nat)
    requires
        a > 0,
        common_divisor(a, b, d),
    ensures
        is_gcd(a, b, g),
        d <= g <= a,
    decreases a - d,
{
    if d > a {
        lemma_small_mod(a, d);
    }
    if exists|x: nat| x > d && #[trigger] common_divisor(a, b, x) {
        let x = choose|x: nat| x > d && #[trigger] common_divisor(a, b, x);
        if x > a {
            lemma_small_mod(a, x);
        }
        lemma_gcd_above(a, b, x)
    } else {
        d
    }
}

/// Every pair of numbers has a greatest common divisor, and `gcd_of` is it.
pub proof fn lemma_gcd_of_is_gcd(a: nat, b: nat)
    ensures
        is_gcd(a, b, gcd_of(a, b)),
{
    if a == 0 && b == 0 {
        assert(is_gcd(a, b, 0));
    } else if a > 0 {
        assert(common_divisor(a, b, 1));
        let g = lemma_gcd_above(a, b, 1);
    } else {
        assert(common_divisor(b, a, 1));
        let g = lemma_gcd_above(b, a, 1);
        assert(common_divisor(a, b, g));
        assert forall|d: nat| #[trigger] common_divisor(a, b, d) implies d <= g by {
            assert(common_divisor(b, a, d));
        }
        assert(is_gcd(a, b, g));
    }
}

/// Below any common multiple of two numbers lies their least common
/// multiple.
pub proof fn lemma_lcm_exists(a: nat, b: nat, m: nat) -> (l: nat)
    requires
        common_multiple(a, b, m),
    ensures
        is_lcm(a, b, l),
        l <= m,
    decreases m,
{
    if exists|x: nat| x < m && #[trigger] common_multiple(a, b, x) {
        let x = choose|x: nat| x < m && #[trigger] common_multiple(a, b, x);
        lemma_lcm_exists(a, b, x)
    } else {
        m
    }
}

/// The product of two positive numbers is their greatest common divisor
/// times their least common multiple, so that `a * (b / g)` is the least
/// common multiple.
pub proof fn lemma_gcd_times_lcm(a: nat, b: nat, g: nat, l: nat)
    requires
        a > 0,
        b > 0,
        is_gcd(a, b, g),
        is_lcm(a, b, l),
    ensures
        a * (b / g) == l,
{
    let p = a * b;
    assert(p == b * a && p > 0) by (nonlinear_arith)
        requires
            p == a * b,
            a > 0,
            b > 0,
    ;
    lemma_mod_multiples_basic(b as int, a as int);
    lemma_mod_multiples_basic(a as int, b as int);
    assert(common_multiple(a, b, p));
    lemma_lcm_divides(a, b, l, p);
    // d is a common divisor of a and b with d * l == a * b
    let d = p / l;
    lemma_fundamental_div_mod(p as int, l as int);
    lemma_fundamental_div_mod(l as int, a as int);
    lemma_fundamental_div_mod(l as int, b as int);
    let j = l / a;
    let k = l / b;
    assert(d > 0 && b == d * j && a == d * k) by (nonlinear_arith)
        requires
            p == a * b,
            p == l * d,
            l == a * j,
            l == b * k,
            a > 0,
            b > 0,
            l > 0,
            d >= 0,
    ;
    lemma_mod_multiples_basic(j as int, d as int);
    lemma_mod_multiples_basic(k as int, d as int);
    assert(b == j * d && a == k * d) by (nonlinear_arith)
        requires
            b == d * j,
            a == d * k,
    ;
    assert(common_divisor(a, b, d));
    // c is a common multiple of a and b with g * c == a * b
    let q = b / g;
    let r = a / g;
    let c = a * q;
    lemma_fundamental_div_mod(a as int, g as int);
    lemma_fundamental_div_mod(b as int, g as int);
    assert(c == q * a && c == r * b && c > 0 && g * c == p) by (nonlinear_arith)
        requires
            c == a * q,
            a == g * r,
            b == g * q,
            p == a * b,
            a > 0,
            b > 0,
            g > 0,
    ;
    lemma_mod_multiples_basic(q as int, a as int);
    lemma_mod_multiples_basic(r as int, b as int);
    assert(common_multiple(a, b, c));
    assert(c <= l) by (nonlinear_arith)
        requires
            g * c == p,
            p == l * d,
            d <= g,
            l > 0,
            g > 0,
            c > 0,
    ;
}

/// Calls `num::Integer::gcd` on two `u64`. The contract claims that the
/// result is the greatest common divisor of the arguments: it divides both,
/// no common divisor is larger, and it is zero only when both arguments are.
#[verifier::external_body]
fn integer_gcd(a: u64, b: u64) -> (g: u64)
    ensures
        is_gcd(a as nat, b as nat, g as nat),
{
    num::Integer::gcd(&a, &b)
}

/// Calls `num::integer::lcm` on two `u64`. The contract claims that the
/// result is the least common multiple of the arguments, zero when either is
/// zero; the product that the call forms stays within 64 bits exactly when
/// that multiple does, which the precondition asks for.
#[verifier::external_body]
fn integer_lcm(a: u64, b: u64) -> (l: u64)
    requires
        lcm_fits(a as nat, b as nat),
    ensures
        is_lcm(a as nat, b as nat, l as nat),
{
    num::integer::lcm(a, b)
}

/// The greatest common divisor of `a` and `b`.
pub fn gcd(a: u64, b: u64) -> (g: u64)
    ensures
        is_gcd(a as nat, b as nat, g as nat),
        g == gcd_of(a as nat, b as nat),
{
    let g = integer_gcd(a, b);
    proof {
        lemma_gcd_unique(a as nat, b as nat, g as nat, gcd_of(a as nat, b as nat));
    }
    g
}

/// The least common multiple of `a` and `b`, for a pair whose least common
/// multiple fits in 64 bits.
pub fn lcm(a: u64, b: u64) -> (l: u64)
    requires
        lcm_fits(a as nat, b as nat),
    ensures
        is_lcm(a as nat, b as nat, l as nat),
        a > 0 && b > 0 ==> l as nat == (a as nat) * ((b as nat) / gcd_of(a as nat, b as nat)),
{
    let l = integer_lcm(a, b);
    proof {
        if a > 0 && b > 0 {
            lemma_gcd_of_is_gcd(a as nat, b as nat);
            lemma_gcd_times_lcm(a as nat, b as nat, gcd_of(a as nat, b as nat), l as nat);
        }
    }
    l
}

/// The least common multiple of `a` and `b`, or `None` where it does not
/// fit in 64 bits.
pub fn checked_lcm(a: u64, b: u64) -> (r: Option<u64>)
    ensures
        r is Some <==> lcm_fits(a as nat, b as nat),
        r matches Some(l) ==> is_lcm(a as nat, b as nat, l as nat),
{
    if a == 0 || b == 0 {
        return Some(lcm(a, b));
    }
    let g = gcd(a, b);
    let q = b / g;
    let fit = a.checked_mul(q);
    proof {
        if lcm_fits(a as nat, b as nat) {
            let m = choose|m: nat| #[trigger] common_multiple(a as nat, b as nat, m) && m <= u64::MAX;
            let l = lemma_lcm_exists(a as nat, b as nat, m);
            lemma_gcd_times_lcm(a as nat, b as nat, g as nat, l);
        }
        if fit is Some {
            let c = (a * q) as nat;
            lemma_fundamental_div_mod(a as int, g as int);
            lemma_fundamental_div_mod(b as int, g as int);
            let r = (a / g) as nat;
            assert(c == q * a && c == r * b && c > 0) by (nonlinear_arith)
                requires
                    c == a * q,
                    a == g * r,
                    b == g * q,
                    a > 0,
                    b > 0,
                    g > 0,
            ;
            lemma_mod_multiples_basic(q as int, a as int);
            lemma_mod_multiples_basic(r as int, b as int);
            assert(common_multiple(a as nat, b as nat, c));
        }
    }
    match fit {
        Some(_) => Some(lcm(a, b)),
        None => None,
    }
}

} // verus!
