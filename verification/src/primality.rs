//! Elementary number theory for prime moduli: the gcd and Bezout's
//! identity, Euclid's lemma, and the Lucas criterion that makes every
//! nonzero residue a power of one element.

use vstd::prelude::*;
use vstd::arithmetic::div_mod::*;
use vstd::arithmetic::power::{pow, lemma_pow_adds, lemma_pow_multiplies, lemma_pow_mod_noop, lemma1_pow, lemma_pow1, lemma_pow0};
use crate::field::pow_mod;
use crate::poseidon::gcd_spec;

verus! {

/// `q` has no divisor strictly between one and itself.
pub open spec fn no_proper_divisor(q: int) -> bool {
    forall|d: int| 1 < d < q ==> #[trigger] (q % d) != 0
}

/// Bezout coefficients for `a` and `b`, by the extended Euclidean algorithm.
pub open spec fn bezout(a: nat, b: nat) -> (int, int)
    decreases b,
{
    if b == 0 {
        (1, 0)
    } else {
        let (x, y) = bezout(b, a % b);
        (y, x - (a / b) as int * y)
    }
}

/// The gcd divides both arguments, and is positive unless both are zero.
pub proof fn lemma_gcd_divides(a: nat, b: nat)
    ensures
        a > 0 || b > 0 ==> gcd_spec(a, b) > 0,
        gcd_spec(a, b) > 0 ==> (a as int) % (gcd_spec(a, b) as int) == 0 && (b as int) % (gcd_spec(a, b) as int) == 0,
        gcd_spec(a, b) <= a || b > 0,
    decreases b,
{
    if b == 0 {
        if a > 0 {
            lemma_mod_self_0(a as int);
            lemma_small_mod(0, a);
        }
    } else {
        let r = a % b;
        lemma_mod_bound(a as int, b as int);
        lemma_gcd_divides(b, r);
        let g = gcd_spec(b, r);
        assert(g == gcd_spec(a, b));
        if b > 0 {
            lemma_fundamental_div_mod(b as int, b as int);
        }
        if g > 0 {
            let kb = (b / g) as int;
            let kr = (r / g) as int;
            lemma_fundamental_div_mod(b as int, g as int);
            lemma_fundamental_div_mod(r as int, g as int);
            lemma_fundamental_div_mod(a as int, b as int);
            let qa = (a / b) as int;
            assert(a == g * (kb * qa + kr)) by (nonlinear_arith)
                requires
                    b == g * kb,
                    r == g * kr,
                    a == b * qa + r;
            lemma_mod_multiples_basic(kb * qa + kr, g as int);
            assert((kb * qa + kr) * g == g * (kb * qa + kr)) by (nonlinear_arith);
        }
    }
}

/// Bezout's identity: `a x + b y` is the gcd.
pub proof fn lemma_bezout(a: nat, b: nat)
    ensures
        a * bezout(a, b).0 + b * bezout(a, b).1 == gcd_spec(a, b),
    decreases b,
{
    if b > 0 {
        let r = a % b;
        lemma_mod_bound(a as int, b as int);
        lemma_bezout(b, r);
        let (x, y) = bezout(b, r);
        let qa = (a / b) as int;
        lemma_fundamental_div_mod(a as int, b as int);
        assert(a * y + b * (x - qa * y) == b * x + r * y) by (nonlinear_arith)
            requires
                a == b * qa + r;
        assert(bezout(a, b) == (y, x - qa * y));
        assert(gcd_spec(a, b) == gcd_spec(b, r));
        assert(b * x + r * y == gcd_spec(b, r));
    } else {
        assert(bezout(a, b) == (1int, 0int));
        assert(a * 1 + b * 0 == a);
    }
}

/// Euclid's lemma: a prime `q` that does not divide `m` can be cancelled
/// from a multiple of `m`.
pub proof fn lemma_euclid(m: int, q: int, x: int)
    requires
        m > 0,
        q > 1,
        no_proper_divisor(q),
        (q * x) % m == 0,
        m % q != 0,
    ensures
        x % m == 0,
{
    lemma_gcd_divides(m as nat, q as nat);
    let g = gcd_spec(m as nat, q as nat) as int;
    assert(g > 0);
    assert(q % g == 0);
    lemma_mod_is_zero(q as nat, g as nat);
    if 1 < g < q {
        assert(q % g != 0);
    }
    if g == q {
        assert(m % q == 0);
    }
    assert(g == 1);
    lemma_bezout(m as nat, q as nat);
    let (bx, by) = bezout(m as nat, q as nat);
    assert(m * bx + q * by == 1);
    lemma_fundamental_div_mod(q * x, m);
    let k = (q * x) / m;
    assert(x == m * (x * bx + k * by)) by (nonlinear_arith)
        requires
            m * bx + q * by == 1,
            q * x == m * k;
    lemma_mod_multiples_basic(x * bx + k * by, m);
    assert((x * bx + k * by) * m == m * (x * bx + k * by)) by (nonlinear_arith);
}

/// Cancelling a prime `q` that does not divide `m` from `q^e * x`.
pub proof fn lemma_euclid_pow(m: int, q: int, e: nat, x: int)
    requires
        m > 0,
        q > 1,
        no_proper_divisor(q),
        (pow(q, e) * x) % m == 0,
        m % q != 0,
    ensures
        x % m == 0,
    decreases e,
{
    if e == 0 {
        lemma_pow0(q);
    } else {
        lemma_pow_adds(q, 1, (e - 1) as nat);
        lemma_pow1(q);
        assert(pow(q, e) * x == q * (pow(q, (e - 1) as nat) * x)) by (nonlinear_arith)
            requires
                pow(q, e) == q * pow(q, (e - 1) as nat);
        lemma_euclid(m, q, pow(q, (e - 1) as nat) * x);
        lemma_euclid_pow(m, q, (e - 1) as nat, x);
    }
}

/// If `a^x` and `a^y` are one modulo `p`, so is `a^gcd(x, y)`.
pub proof fn lemma_pow_gcd_one(a: int, x: nat, y: nat, p: int)
    requires
        p > 1,
        pow_mod(a, x, p) == 1,
        pow_mod(a, y, p) == 1,
    ensures
        pow_mod(a, gcd_spec(x, y), p) == 1,
    decreases y,
{
    if y > 0 {
        let r = x % y;
        let k = x / y;
        lemma_mod_bound(x as int, y as int);
        lemma_fundamental_div_mod(x as int, y as int);
        assert(x == y * k + r);
        lemma_pow_adds(a, y * k, r);
        lemma_pow_multiplies(a, y, k);
        lemma_pow_mod_noop(pow(a, y), k, p);
        lemma1_pow(k);
        lemma_small_mod(1, p as nat);
        lemma_mul_mod_noop(pow(pow(a, y), k), pow(a, r), p);
        lemma_mod_bound(pow(a, r), p);
        lemma_small_mod((pow(a, r) % p) as nat, p as nat);
        assert((1 * (pow(a, r) % p)) % p == pow(a, r) % p);
        assert(pow_mod(a, r, p) == 1);
        lemma_pow_gcd_one(a, y, r, p);
    }
}

/// Squaring doubles the exponent, modulo `p`.
pub proof fn lemma_pow_double(b: int, e: nat, x: int, y: int, p: int)
    requires
        p > 0,
        pow_mod(b, e, p) == x,
        (x * x) % p == y,
    ensures
        pow_mod(b, 2 * e, p) == y,
{
    lemma_pow_adds(b, e, e);
    assert(e + e == 2 * e);
    lemma_mul_mod_noop(pow(b, e), pow(b, e), p);
}

/// Multiplying by the base adds one to the exponent, modulo `p`.
pub proof fn lemma_pow_incr(b: int, e: nat, x: int, y: int, p: int)
    requires
        p > 0,
        pow_mod(b, e, p) == x,
        (x * b) % p == y,
    ensures
        pow_mod(b, e + 1, p) == y,
{
    lemma_pow_adds(b, e, 1);
    lemma_pow1(b);
    lemma_mul_mod_noop_left(pow(b, e), b, p);
}

} // verus!
