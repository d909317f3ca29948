//! Evaluation laws of polynomials: evaluating a sum, a scaled polynomial
//! or a product gives the sum, the scaled value or the product of the
//! values.

use vstd::prelude::*;
use vstd::arithmetic::power::{pow, lemma_pow0, lemma_pow1, lemma_pow_adds};
use vstd::arithmetic::div_mod::*;
use vstd::arithmetic::mul::*;
use crate::poly::{coeff, poly_eval, conv};

verus! {

/// `sum_{k < n} c_k x^k` modulo `p`, accumulated term by term.
pub open spec fn eval_sum(c: Seq<int>, x: int, n: nat, p: int) -> int
    decreases n,
{
    if n == 0 {
        0
    } else {
        (eval_sum(c, x, (n - 1) as nat, p) + coeff(c, n - 1) * pow(x, (n - 1) as nat)) % p
    }
}

/// Values agree modulo `p` after adding the same term.
proof fn lemma_mod_add_congruent(a: int, b: int, t: int, p: int)
    requires
        p > 0,
        a % p == b % p,
    ensures
        (a + t) % p == (b + t) % p,
{
    lemma_add_mod_noop(a, t, p);
    lemma_add_mod_noop(b, t, p);
}

/// Values agree modulo `p` after multiplying by the same factor.
proof fn lemma_mod_mul_congruent(a: int, b: int, t: int, p: int)
    requires
        p > 0,
        a % p == b % p,
    ensures
        (a * t) % p == (b * t) % p,
{
    lemma_mul_mod_noop_left(a, t, p);
    lemma_mul_mod_noop_left(b, t, p);
}

/// A sum-form evaluation is a canonical value.
proof fn lemma_eval_sum_range(c: Seq<int>, x: int, n: nat, p: int)
    requires
        p > 0,
    ensures
        0 <= eval_sum(c, x, n, p) < p,
{
    if n > 0 {
        lemma_mod_bound(eval_sum(c, x, (n - 1) as nat, p) + coeff(c, n - 1) * pow(x, (n - 1) as nat), p);
    }
}

/// Coefficients past the end add nothing.
proof fn lemma_eval_sum_extend(c: Seq<int>, x: int, n: nat, p: int)
    requires
        p > 0,
        n >= c.len(),
    ensures
        eval_sum(c, x, n, p) == eval_sum(c, x, c.len(), p),
    decreases n,
{
    if n > c.len() {
        lemma_eval_sum_extend(c, x, (n - 1) as nat, p);
        lemma_eval_sum_range(c, x, (n - 1) as nat, p);
        assert(coeff(c, n - 1) == 0);
        lemma_small_mod(eval_sum(c, x, (n - 1) as nat, p) as nat, p as nat);
    }
}

/// Splitting off the constant coefficient: `c_0 + x * (rest)`.
proof fn lemma_eval_sum_horner(c: Seq<int>, x: int, m: nat, p: int)
    requires
        p > 0,
        c.len() >= 1,
        m >= 1,
    ensures
        eval_sum(c, x, m, p) == (coeff(c, 0) + x * eval_sum(c.drop_first(), x, (m - 1) as nat, p)) % p,
    decreases m,
{
    let t = c.drop_first();
    if m == 1 {
        lemma_pow0(x);
        assert(eval_sum(t, x, 0, p) == 0);
        assert(eval_sum(c, x, 0, p) == 0);
    } else {
        lemma_eval_sum_horner(c, x, (m - 1) as nat, p);
        let e = eval_sum(t, x, (m - 2) as nat, p);
        let cm = coeff(c, m - 1);
        assert(coeff(t, m - 2) == cm);
        let xm1 = pow(x, (m - 1) as nat);
        let xm2 = pow(x, (m - 2) as nat);
        lemma_pow_adds(x, 1, (m - 2) as nat);
        lemma_pow1(x);
        assert(xm1 == x * xm2);
        let y = e + cm * xm2;
        assert(eval_sum(t, x, (m - 1) as nat, p) == y % p);
        // LHS: ((c0 + x e) % p + cm xm1) % p
        lemma_mod_twice(coeff(c, 0) + x * e, p);
        lemma_mod_add_congruent((coeff(c, 0) + x * e) % p, coeff(c, 0) + x * e, cm * xm1, p);
        // RHS: (c0 + x (y % p)) % p
        lemma_mul_mod_noop_right(x, y, p);
        lemma_add_mod_noop_right(coeff(c, 0), x * (y % p), p);
        lemma_add_mod_noop_right(coeff(c, 0), x * y, p);
        assert(x * y == x * e + cm * xm1) by (nonlinear_arith)
            requires y == e + cm * xm2, xm1 == x * xm2;
    }
}

/// Horner's rule evaluates the sum form.
pub proof fn lemma_poly_eval_is_sum(c: Seq<int>, x: int, n: nat, p: int)
    requires
        p > 0,
        n >= c.len(),
    ensures
        poly_eval(c, x, p) == eval_sum(c, x, n, p),
    decreases c.len(),
{
    lemma_eval_sum_extend(c, x, n, p);
    if c.len() > 0 {
        let t = c.drop_first();
        lemma_poly_eval_is_sum(t, x, t.len(), p);
        lemma_eval_sum_horner(c, x, c.len(), p);
        assert(coeff(c, 0) == c[0]);
    }
}

/// Evaluation is additive in the coefficients.
pub proof fn lemma_eval_sum_add(r: Seq<int>, a: Seq<int>, b: Seq<int>, x: int, n: nat, p: int)
    requires
        p > 0,
        forall|k: int| 0 <= k < n ==> #[trigger] coeff(r, k) == (coeff(a, k) + coeff(b, k)) % p,
    ensures
        eval_sum(r, x, n, p) == (eval_sum(a, x, n, p) + eval_sum(b, x, n, p)) % p,
    decreases n,
{
    if n > 0 {
        let m = (n - 1) as nat;
        lemma_eval_sum_add(r, a, b, x, m, p);
        let ea = eval_sum(a, x, m, p);
        let eb = eval_sum(b, x, m, p);
        let w = pow(x, m);
        let ca = coeff(a, m as int);
        let cb = coeff(b, m as int);
        let er = (ea + eb) % p;
        let cr = (ca + cb) % p;
        assert(eval_sum(r, x, n, p) == (er + cr * w) % p);
        lemma_add_mod_noop(er, cr * w, p);
        lemma_mod_twice(ea + eb, p);
        lemma_mul_mod_noop_left(ca + cb, w, p);
        assert((er + cr * w) % p == (er + ((ca + cb) * w) % p) % p);
        lemma_add_mod_noop(ea + eb, (ca + cb) * w, p);
        assert((er + ((ca + cb) * w) % p) % p == ((ea + eb) + (ca + cb) * w) % p);
        lemma_add_mod_noop(ea + ca * w, eb + cb * w, p);
        assert((ca + cb) * w == ca * w + cb * w) by (nonlinear_arith);
        assert((ea + ca * w) + (eb + cb * w) == (ea + eb) + (ca + cb) * w);
        assert(eval_sum(a, x, n, p) == (ea + ca * w) % p);
        assert(eval_sum(b, x, n, p) == (eb + cb * w) % p);
    } else {
        lemma_small_mod(0, p as nat);
    }
}

/// Evaluation commutes with scaling every coefficient.
pub proof fn lemma_eval_sum_scale(r: Seq<int>, a: Seq<int>, s: int, x: int, n: nat, p: int)
    requires
        p > 0,
        forall|k: int| 0 <= k < n ==> #[trigger] coeff(r, k) == (coeff(a, k) * s) % p,
    ensures
        eval_sum(r, x, n, p) == (eval_sum(a, x, n, p) * s) % p,
    decreases n,
{
    if n > 0 {
        let m = (n - 1) as nat;
        lemma_eval_sum_scale(r, a, s, x, m, p);
        let ea = eval_sum(a, x, m, p);
        let w = pow(x, m);
        let ca = coeff(a, m as int);
        let er = (ea * s) % p;
        let cr = (ca * s) % p;
        assert(eval_sum(r, x, n, p) == (er + cr * w) % p);
        lemma_add_mod_noop(er, cr * w, p);
        lemma_mod_twice(ea * s, p);
        lemma_mul_mod_noop_left(ca * s, w, p);
        assert((er + cr * w) % p == (er + ((ca * s) * w) % p) % p);
        lemma_add_mod_noop(ea * s, (ca * s) * w, p);
        assert((er + ((ca * s) * w) % p) % p == (ea * s + (ca * s) * w) % p);
        lemma_mul_mod_noop_left(ea + ca * w, s, p);
        assert((ea + ca * w) * s == ea * s + (ca * s) * w) by (nonlinear_arith);
        assert(eval_sum(a, x, n, p) == (ea + ca * w) % p);
        assert(((ea + ca * w) % p * s) % p == ((ea + ca * w) * s) % p);
    } else {
        lemma_small_mod(0, p as nat);
    }
}


/// Evaluations agree when the coefficients agree.
proof fn lemma_eval_sum_same(r: Seq<int>, a: Seq<int>, x: int, n: nat, p: int)
    requires
        forall|k: int| 0 <= k < n ==> #[trigger] coeff(r, k) == coeff(a, k),
    ensures
        eval_sum(r, x, n, p) == eval_sum(a, x, n, p),
    decreases n,
{
    if n > 0 {
        lemma_eval_sum_same(r, a, x, (n - 1) as nat, p);
    }
}

/// All-zero coefficients evaluate to zero.
proof fn lemma_eval_sum_zero(t: Seq<int>, x: int, n: nat, p: int)
    requires
        p > 0,
        forall|k: int| 0 <= k < n ==> #[trigger] coeff(t, k) == 0,
    ensures
        eval_sum(t, x, n, p) == 0,
    decreases n,
{
    if n > 0 {
        lemma_eval_sum_zero(t, x, (n - 1) as nat, p);
        lemma_small_mod(0, p as nat);
    }
}

/// Shifting by `s` places and scaling by `c` multiplies the value by `c x^s`.
proof fn lemma_eval_sum_shift(t: Seq<int>, b: Seq<int>, c: int, s: nat, x: int, n: nat, p: int)
    requires
        p > 0,
        s <= n,
        forall|k: int| 0 <= k < n ==> #[trigger] coeff(t, k) == c * coeff(b, k - s),
    ensures
        eval_sum(t, x, n, p) == (c * pow(x, s) * eval_sum(b, x, (n - s) as nat, p)) % p,
    decreases n,
{
    if n == s {
        assert forall|k: int| 0 <= k < n implies #[trigger] coeff(t, k) == 0 by {
            assert(coeff(b, k - s) == 0);
        }
        lemma_eval_sum_zero(t, x, n, p);
        lemma_small_mod(0, p as nat);
        assert(c * pow(x, s) * 0 == 0);
    } else {
        let m = (n - 1) as nat;
        lemma_eval_sum_shift(t, b, c, s, x, m, p);
        let e = eval_sum(b, x, (m - s) as nat, p);
        let xs = pow(x, s);
        let bk = coeff(b, m - s);
        let xr = pow(x, (m - s) as nat);
        let xm = pow(x, m);
        lemma_pow_adds(x, s, (m - s) as nat);
        assert(xm == xs * xr);
        let k = c * xs;
        let big_a = k * e;
        let term = c * bk * xm;
        assert(coeff(t, m as int) == c * bk);
        assert(eval_sum(t, x, n, p) == ((big_a % p) + term) % p) by {
            assert(eval_sum(t, x, m, p) == big_a % p);
            assert(coeff(t, m as int) * pow(x, m) == term);
        }
        lemma_mod_twice(big_a, p);
        lemma_mod_add_congruent(big_a % p, big_a, term, p);
        assert(eval_sum(b, x, (n - s) as nat, p) == (e + bk * xr) % p);
        lemma_mul_mod_noop_right(k, e + bk * xr, p);
        assert(k * (e + bk * xr) == big_a + term) by (nonlinear_arith)
            requires k == c * xs, big_a == k * e, term == c * bk * xm, xm == xs * xr;
        assert(c * xs * ((e + bk * xr) % p) == k * ((e + bk * xr) % p));
    }
}

/// Evaluation of a product: the coefficient sums of `a * b` evaluate to the
/// product of the values, through the first `m` coefficients of `a`.
proof fn lemma_eval_sum_product_prefix(a: Seq<int>, b: Seq<int>, x: int, n: nat, m: nat, p: int)
    requires
        p > 0,
        m <= a.len(),
        a.len() + b.len() <= n + 1,
        b.len() >= 1,
    ensures
        eval_sum(Seq::new(n, |k: int| conv(a, b, k, m, p)), x, n, p) == (eval_sum(a, x, m, p) * eval_sum(
            b,
            x,
            b.len(),
            p,
        )) % p,
    decreases m,
{
    let q = Seq::new(n, |k: int| conv(a, b, k, m, p));
    let eb = eval_sum(b, x, b.len(), p);
    if m == 0 {
        assert forall|k: int| 0 <= k < n implies #[trigger] coeff(q, k) == 0 by {}
        lemma_eval_sum_zero(q, x, n, p);
        lemma_small_mod(0, p as nat);
    } else {
        let m1 = (m - 1) as nat;
        lemma_eval_sum_product_prefix(a, b, x, n, m1, p);
        let q1 = Seq::new(n, |k: int| conv(a, b, k, m1, p));
        let am = coeff(a, m1 as int);
        let t = Seq::new(n, |k: int| am * coeff(b, k - m1));
        assert forall|k: int| 0 <= k < n implies #[trigger] coeff(q, k) == (coeff(q1, k) + coeff(t, k)) % p by {}
        lemma_eval_sum_add(q, q1, t, x, n, p);
        assert forall|k: int| 0 <= k < n implies #[trigger] coeff(t, k) == am * coeff(b, k - m1) by {}
        lemma_eval_sum_shift(t, b, am, m1, x, n, p);
        lemma_eval_sum_extend(b, x, (n - m1) as nat, p);
        let ea = eval_sum(a, x, m1, p);
        let xm = pow(x, m1);
        // ((ea eb) % p + (am xm eb) % p) % p == ((ea + am xm) % p * eb) % p
        lemma_add_mod_noop(ea * eb, am * xm * eb, p);
        lemma_mul_mod_noop_left(ea + am * xm, eb, p);
        assert((ea + am * xm) * eb == ea * eb + am * xm * eb) by (nonlinear_arith);
        assert(eval_sum(a, x, m, p) == (ea + am * xm) % p);
    }
}

/// Evaluating the product of `a` and `b` gives the product of their values.
pub proof fn lemma_poly_eval_product(r: Seq<int>, a: Seq<int>, b: Seq<int>, x: int, p: int)
    requires
        p > 0,
        a.len() >= 1,
        b.len() >= 1,
        r.len() <= a.len() + b.len() - 1,
        forall|k: int| #[trigger] coeff(r, k) == conv(a, b, k, a.len(), p),
    ensures
        poly_eval(r, x, p) == (poly_eval(a, x, p) * poly_eval(b, x, p)) % p,
{
    let n = (a.len() + b.len() - 1) as nat;
    lemma_eval_sum_product_prefix(a, b, x, n, a.len(), p);
    let q = Seq::new(n, |k: int| conv(a, b, k, a.len(), p));
    assert forall|k: int| 0 <= k < n implies #[trigger] coeff(r, k) == coeff(q, k) by {}
    lemma_eval_sum_same(r, q, x, n, p);
    lemma_poly_eval_is_sum(r, x, n, p);
    lemma_poly_eval_is_sum(a, x, a.len(), p);
    lemma_poly_eval_is_sum(b, x, b.len(), p);
}


/// Evaluating a coefficient-wise sum gives the sum of the values.
pub proof fn lemma_poly_eval_add(r: Seq<int>, a: Seq<int>, b: Seq<int>, x: int, p: int)
    requires
        p > 0,
        forall|k: int| #[trigger] coeff(r, k) == (coeff(a, k) + coeff(b, k)) % p,
    ensures
        poly_eval(r, x, p) == (poly_eval(a, x, p) + poly_eval(b, x, p)) % p,
{
    let n = r.len() + a.len() + b.len();
    lemma_eval_sum_add(r, a, b, x, n, p);
    lemma_poly_eval_is_sum(r, x, n, p);
    lemma_poly_eval_is_sum(a, x, n, p);
    lemma_poly_eval_is_sum(b, x, n, p);
}

/// Evaluating a coefficient-wise difference gives the difference of the values.
pub proof fn lemma_poly_eval_sub(r: Seq<int>, a: Seq<int>, b: Seq<int>, x: int, p: int)
    requires
        p > 1,
        forall|k: int| #[trigger] coeff(r, k) == (coeff(a, k) - coeff(b, k)) % p,
    ensures
        poly_eval(r, x, p) == (poly_eval(a, x, p) - poly_eval(b, x, p)) % p,
{
    let nb = Seq::new(b.len(), |k: int| (b[k] * (p - 1)) % p);
    assert forall|k: int| #[trigger] coeff(nb, k) == (coeff(b, k) * (p - 1)) % p by {
        if !(0 <= k < b.len()) {
            lemma_small_mod(0, p as nat);
        }
    }
    assert forall|k: int| #[trigger] coeff(r, k) == (coeff(a, k) + coeff(nb, k)) % p by {
        let ak = coeff(a, k);
        let bk = coeff(b, k);
        lemma_add_mod_noop(ak, bk * (p - 1), p);
        lemma_mod_twice(bk * (p - 1), p);
        lemma_add_mod_noop(ak, (bk * (p - 1)) % p, p);
        assert(ak + bk * (p - 1) == (ak - bk) + bk * p) by (nonlinear_arith);
        lemma_mod_multiples_vanish(bk, ak - bk, p);
    }
    lemma_poly_eval_add(r, a, nb, x, p);
    lemma_poly_eval_scale(nb, b, p - 1, x, p);
    let ea = poly_eval(a, x, p);
    let eb = poly_eval(b, x, p);
    lemma_add_mod_noop(ea, eb * (p - 1), p);
    lemma_mod_twice(eb * (p - 1), p);
    lemma_add_mod_noop(ea, (eb * (p - 1)) % p, p);
    assert(ea + eb * (p - 1) == (ea - eb) + eb * p) by (nonlinear_arith);
    lemma_mod_multiples_vanish(eb, ea - eb, p);
}

/// Evaluating a scaled polynomial gives the scaled value.
pub proof fn lemma_poly_eval_scale(r: Seq<int>, a: Seq<int>, c: int, x: int, p: int)
    requires
        p > 0,
        forall|k: int| #[trigger] coeff(r, k) == (coeff(a, k) * c) % p,
    ensures
        poly_eval(r, x, p) == (poly_eval(a, x, p) * c) % p,
{
    let n = r.len() + a.len();
    lemma_eval_sum_scale(r, a, c, x, n, p);
    lemma_poly_eval_is_sum(r, x, n, p);
    lemma_poly_eval_is_sum(a, x, n, p);
}

/// Scaling coefficient `k` by `o^k` moves the evaluation point from `x`
/// to `o * x`, in sum form.
proof fn lemma_eval_sum_coset(r: Seq<int>, c: Seq<int>, o: int, x: int, n: nat, p: int)
    requires
        p > 0,
        forall|k: int| 0 <= k < n ==> #[trigger] coeff(r, k) == (coeff(c, k) * (pow(o, k as nat) % p)) % p,
    ensures
        eval_sum(r, x, n, p) == eval_sum(c, o * x, n, p),
    decreases n,
{
    if n > 0 {
        let k = (n - 1) as nat;
        lemma_eval_sum_coset(r, c, o, x, k, p);
        let ck = coeff(c, k as int);
        let ok = pow(o, k);
        let xk = pow(x, k);
        vstd::arithmetic::power::lemma_pow_distributes(o, x, k);
        // coeff(r, k) * x^k == c_k * (o x)^k (mod p)
        lemma_mul_mod_noop_right(ck, ok, p);
        lemma_mod_twice(ck * (ok % p), p);
        assert(((ck * (ok % p)) % p) % p == (ck * ok) % p);
        lemma_mod_mul_congruent((ck * (ok % p)) % p, ck * ok, xk, p);
        assert((ck * ok) * xk == ck * (ok * xk)) by (nonlinear_arith);
        let e = eval_sum(c, o * x, k, p);
        lemma_add_mod_noop_right(e, coeff(r, k as int) * xk, p);
        lemma_add_mod_noop_right(e, ck * (ok * xk), p);
    }
}

/// Scaling coefficient `k` by `o^k` (and padding with zeros) moves the
/// evaluation point from `x` to `o * x`.
pub proof fn lemma_poly_eval_coset(r: Seq<int>, c: Seq<int>, o: int, x: int, p: int)
    requires
        p > 0,
        r.len() >= c.len(),
        forall|k: int| 0 <= k < r.len() ==> #[trigger] coeff(r, k) == (coeff(c, k) * (pow(o, k as nat) % p)) % p,
    ensures
        poly_eval(r, x, p) == poly_eval(c, o * x, p),
{
    lemma_eval_sum_coset(r, c, o, x, r.len(), p);
    lemma_poly_eval_is_sum(r, x, r.len(), p);
    lemma_poly_eval_is_sum(c, o * x, r.len(), p);
}

/// Evaluations agree when the coefficients agree.
pub proof fn lemma_poly_eval_same_coeffs(r: Seq<int>, a: Seq<int>, x: int, p: int)
    requires
        p > 0,
        forall|k: int| #[trigger] coeff(r, k) == coeff(a, k),
    ensures
        poly_eval(r, x, p) == poly_eval(a, x, p),
{
    let n = if r.len() > a.len() { r.len() } else { a.len() };
    lemma_eval_sum_same(r, a, x, n, p);
    lemma_poly_eval_is_sum(r, x, n, p);
    lemma_poly_eval_is_sum(a, x, n, p);
}

/// Two normalized coefficient sequences with the same coefficients are equal.
pub proof fn lemma_normalized_eq(s: Seq<int>, t: Seq<int>)
    requires
        crate::poly::is_normalized(s),
        crate::poly::is_normalized(t),
        forall|k: int| #[trigger] coeff(s, k) == coeff(t, k),
    ensures
        s == t,
{
    if s.len() < t.len() {
        assert(coeff(t, t.len() - 1) == t.last());
        assert(coeff(s, t.len() - 1) == coeff(t, t.len() - 1));
    } else if t.len() < s.len() {
        assert(coeff(s, s.len() - 1) == s.last());
        assert(coeff(s, s.len() - 1) == coeff(t, s.len() - 1));
    }
    assert(s.len() == t.len());
    assert forall|k: int| 0 <= k < s.len() implies s[k] == t[k] by {
        assert(coeff(s, k) == coeff(t, k));
    }
    assert(s =~= t);
}

/// Adding `b` and then subtracting it gives back `a`, for reduced
/// normalized coefficients.
pub proof fn lemma_add_sub_inverse(a: Seq<int>, b: Seq<int>, sum: Seq<int>, diff: Seq<int>, p: int)
    requires
        p > 1,
        crate::poly::is_normalized(a),
        crate::poly::is_normalized(diff),
        forall|k: int| 0 <= k < a.len() ==> 0 <= #[trigger] a[k] < p,
        forall|k: int| 0 <= k < b.len() ==> 0 <= #[trigger] b[k] < p,
        forall|k: int| #[trigger] coeff(sum, k) == (coeff(a, k) + coeff(b, k)) % p,
        forall|k: int| #[trigger] coeff(diff, k) == (coeff(sum, k) - coeff(b, k)) % p,
    ensures
        diff == a,
{
    assert forall|k: int| #[trigger] coeff(diff, k) == coeff(a, k) by {
        let ak = coeff(a, k);
        let bk = coeff(b, k);
        lemma_small_mod(bk as nat, p as nat);
        lemma_sub_mod_noop(ak + bk, bk, p);
        lemma_small_mod(ak as nat, p as nat);
        assert(coeff(sum, k) == (ak + bk) % p);
    }
    lemma_normalized_eq(diff, a);
}

/// Subtracting a polynomial from itself gives the zero polynomial.
pub proof fn lemma_sub_self(a: Seq<int>, diff: Seq<int>, p: int)
    requires
        p > 1,
        crate::poly::is_normalized(diff),
        forall|k: int| #[trigger] coeff(diff, k) == (coeff(a, k) - coeff(a, k)) % p,
    ensures
        diff == seq![0int],
{
    lemma_small_mod(0, p as nat);
    assert forall|k: int| #[trigger] coeff(diff, k) == coeff(seq![0int], k) by {
        assert(coeff(diff, k) == 0);
    }
    lemma_normalized_eq(diff, seq![0int]);
}

/// The product is determined by its coefficients: two normalized results
/// whose coefficients are those of the product of `a` and `b` (as both
/// `mul_naive` and `mul_fft` ensure) are equal.
pub proof fn lemma_products_agree(a: Seq<int>, b: Seq<int>, r1: Seq<int>, r2: Seq<int>, p: int)
    requires
        crate::poly::is_normalized(r1),
        crate::poly::is_normalized(r2),
        forall|k: int| #[trigger] coeff(r1, k) == crate::poly::product_coeff(a, b, k, p),
        forall|k: int| #[trigger] coeff(r2, k) == crate::poly::product_coeff(a, b, k, p),
    ensures
        r1 == r2,
{
    assert forall|k: int| #[trigger] coeff(r1, k) == coeff(r2, k) by {
        assert(coeff(r1, k) == crate::poly::product_coeff(a, b, k, p));
        assert(coeff(r2, k) == crate::poly::product_coeff(a, b, k, p));
    }
    lemma_normalized_eq(r1, r2);
}

} // verus!
