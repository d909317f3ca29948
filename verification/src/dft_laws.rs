//! The inverse transform undoes the transform: finite sums, the
//! orthogonality of the powers of a root of unity, and the inversion law.

use vstd::prelude::*;
use vstd::arithmetic::power::pow;
use vstd::arithmetic::power2::pow2;
use vstd::arithmetic::div_mod::*;
use vstd::arithmetic::mul::*;
use crate::poly::{coeff, poly_eval, conv, lemma_conv_range, lemma_conv_outside};
use crate::field::{Field, pow_mod, fm, inverses_correct};
use crate::fft::{stage_root, lemma_stage_root_family, lemma_pass_root_family, pass_root, no_zero_divisors, lemma_root_nonzero, lemma_inverse_unique, is_pow2_len, log2_of, lemma_log2_of};
use crate::field::vals;
use crate::dft::{dft_at, lemma_poly_eval_point_mod};

verus! {

/// `f(0) + f(1) + ... + f(n - 1)` over the integers.
pub open spec fn sum_to(f: spec_fn(int) -> int, n: nat) -> int
    decreases n,
{
    if n == 0 {
        0
    } else {
        sum_to(f, (n - 1) as nat) + f(n - 1)
    }
}

/// Sums of functions that agree below `n` agree.
pub proof fn lemma_sum_ext(f: spec_fn(int) -> int, g: spec_fn(int) -> int, n: nat)
    requires
        forall|k: int| 0 <= k < n ==> #[trigger] f(k) == g(k),
    ensures
        sum_to(f, n) == sum_to(g, n),
    decreases n,
{
    if n > 0 {
        lemma_sum_ext(f, g, (n - 1) as nat);
    }
}

/// Sums of functions that agree modulo `p` below `n` agree modulo `p`.
pub proof fn lemma_sum_mod(f: spec_fn(int) -> int, g: spec_fn(int) -> int, n: nat, p: int)
    requires
        p > 0,
        forall|k: int| 0 <= k < n ==> #[trigger] f(k) % p == g(k) % p,
    ensures
        sum_to(f, n) % p == sum_to(g, n) % p,
    decreases n,
{
    if n > 0 {
        let m = (n - 1) as nat;
        lemma_sum_mod(f, g, m, p);
        lemma_add_mod_noop(sum_to(f, m), f(m as int), p);
        lemma_add_mod_noop(sum_to(g, m), g(m as int), p);
    }
}

/// The sum of a pointwise sum is the sum of the sums.
pub proof fn lemma_sum_add(f: spec_fn(int) -> int, g: spec_fn(int) -> int, h: spec_fn(int) -> int, n: nat)
    requires
        forall|k: int| 0 <= k < n ==> #[trigger] h(k) == f(k) + g(k),
    ensures
        sum_to(h, n) == sum_to(f, n) + sum_to(g, n),
    decreases n,
{
    if n > 0 {
        lemma_sum_add(f, g, h, (n - 1) as nat);
    }
}

/// A constant factor comes out of a sum.
pub proof fn lemma_sum_scale(f: spec_fn(int) -> int, g: spec_fn(int) -> int, c: int, n: nat)
    requires
        forall|k: int| 0 <= k < n ==> #[trigger] g(k) == c * f(k),
    ensures
        sum_to(g, n) == c * sum_to(f, n),
    decreases n,
{
    if n > 0 {
        let m = (n - 1) as nat;
        lemma_sum_scale(f, g, c, m);
        lemma_mul_is_distributive_add(c, sum_to(f, m), f(m as int));
    }
}

/// A sum over `a + b` terms is the sum over the first `a` plus the sum over
/// the next `b`.
pub proof fn lemma_sum_split(f: spec_fn(int) -> int, a: nat, b: nat)
    ensures
        sum_to(f, a + b) == sum_to(f, a) + sum_to(|k: int| f(a + k), b),
    decreases b,
{
    if b > 0 {
        lemma_sum_split(f, a, (b - 1) as nat);
        assert((a + b - 1) as nat == (a + b) - 1);
    }
}

/// A sum whose terms vanish except at `j` is its term at `j`.
pub proof fn lemma_sum_single(f: spec_fn(int) -> int, n: nat, j: int)
    requires
        0 <= j < n,
        forall|k: int| 0 <= k < n && k != j ==> #[trigger] f(k) == 0,
    ensures
        sum_to(f, n) == f(j),
    decreases n,
{
    if n - 1 == j {
        lemma_sum_zero(f, (n - 1) as nat);
    } else {
        lemma_sum_single(f, (n - 1) as nat, j);
    }
}

/// A sum of zeros is zero.
pub proof fn lemma_sum_zero(f: spec_fn(int) -> int, n: nat)
    requires
        forall|k: int| 0 <= k < n ==> #[trigger] f(k) == 0,
    ensures
        sum_to(f, n) == 0,
    decreases n,
{
    if n > 0 {
        lemma_sum_zero(f, (n - 1) as nat);
    }
}

/// The rows of a double sum may be summed in either order.
pub proof fn lemma_sum_swap(g: spec_fn(int, int) -> int, n: nat, m: nat)
    ensures
        sum_to(|k: int| sum_to(|i: int| g(i, k), m), n) == sum_to(|i: int| sum_to(|k: int| g(i, k), n), m),
    decreases n,
{
    if n > 0 {
        let n1 = (n - 1) as nat;
        lemma_sum_swap(g, n1, m);
        let cols = |k: int| sum_to(|i: int| g(i, k), m);
        let left = |i: int| sum_to(|k: int| g(i, k), n1);
        let right = |i: int| g(i, n1 as int);
        let both = |i: int| sum_to(|k: int| g(i, k), n);
        assert(sum_to(cols, n) == sum_to(cols, n1) + cols(n1 as int));
        assert(cols(n1 as int) == sum_to(right, m)) by {
            assert((|i: int| g(i, n1 as int)) =~= right);
        }
        assert forall|i: int| 0 <= i < m implies #[trigger] both(i) == left(i) + right(i) by {}
        lemma_sum_add(left, right, both, m);
        assert((|k: int| sum_to(|i: int| g(i, k), m)) =~= cols);
        assert((|i: int| sum_to(|k: int| g(i, k), n1)) =~= left);
        assert((|i: int| sum_to(|k: int| g(i, k), n)) =~= both);
    } else {
        lemma_sum_zero(|i: int| sum_to(|k: int| g(i, k), n), m);
    }
}

/// Horner's rule computes the sum of the terms `c_k x^k`, modulo `p`.
pub proof fn lemma_poly_eval_as_sum(c: Seq<int>, x: int, n: nat, p: int)
    requires
        p > 0,
        n >= c.len(),
    ensures
        poly_eval(c, x, p) == sum_to(|k: int| coeff(c, k) * pow(x, k as nat), n) % p,
{
    crate::poly_laws::lemma_poly_eval_is_sum(c, x, n, p);
    lemma_eval_sum_is_sum(c, x, n, p);
}

/// The term-by-term reduced sum is the reduced sum.
proof fn lemma_eval_sum_is_sum(c: Seq<int>, x: int, n: nat, p: int)
    requires
        p > 0,
    ensures
        crate::poly_laws::eval_sum(c, x, n, p) == sum_to(|k: int| coeff(c, k) * pow(x, k as nat), n) % p,
    decreases n,
{
    if n == 0 {
        lemma_small_mod(0, p as nat);
    } else {
        let m = (n - 1) as nat;
        lemma_eval_sum_is_sum(c, x, m, p);
        let s = sum_to(|k: int| coeff(c, k) * pow(x, k as nat), m);
        let t = coeff(c, m as int) * pow(x, m);
        lemma_add_mod_noop(s, t, p);
        lemma_mod_twice(s, p);
        lemma_add_mod_noop(s % p, t, p);
    }
}

/// Powers of `-1`: `(p - 1)^d` is `1` for even `d` and `p - 1` for odd `d`,
/// modulo `p`.
pub proof fn lemma_neg_one_pow(d: nat, p: int)
    requires
        p > 2,
    ensures
        pow(p - 1, d) % p == if d % 2 == 0 { 1 } else { p - 1 },
    decreases d,
{
    if d == 0 {
        vstd::arithmetic::power::lemma_pow0(p - 1);
        lemma_small_mod(1, p as nat);
    } else {
        lemma_neg_one_pow((d - 1) as nat, p);
        vstd::arithmetic::power::lemma_pow_adds(p - 1, (d - 1) as nat, 1);
        vstd::arithmetic::power::lemma_pow1(p - 1);
        lemma_mul_mod_noop_left(pow(p - 1, (d - 1) as nat), p - 1, p);
        if (d - 1) % 2 == 0 {
            lemma_small_mod((p - 1) as nat, p as nat);
        } else {
            assert((p - 1) * (p - 1) == p * (p - 2) + 1) by (nonlinear_arith);
            lemma_mod_multiples_vanish(p - 2, 1, p);
            lemma_small_mod(1, p as nat);
        }
    }
}

/// The terms `r^(k d)` of a geometric sum.
pub open spec fn geometric(r: int, d: nat) -> spec_fn(int) -> int {
    |k: int| pow(r, (k * d) as nat)
}

/// Orthogonality of the powers of the pass-`s` root `r_s` (of either
/// direction): `sum_{k < 2^s} r_s^(k d)` is `2^s` when `2^s` divides `d`,
/// else `0`, modulo `p`.
pub proof fn lemma_orthogonality<F: Field>(inverse: bool, s: nat, d: nat)
    requires
        s <= F::two_adicity_spec(),
    ensures
        sum_to(geometric(pass_root::<F>(inverse, s), d), pow2(s)) % F::p() == if d % pow2(s) == 0 {
            (pow2(s) as int) % F::p()
        } else {
            0
        },
    decreases s,
{
    F::lemma_prime_field();
    F::lemma_modulus();
    let p = F::p();
    let r = pass_root::<F>(inverse, s);
    let f = geometric(r, d);
    if s == 0 {
        vstd::arithmetic::power2::lemma2_to64();
        assert(f(0) == pow(r, 0));
        vstd::arithmetic::power::lemma_pow0(r);
        assert(sum_to(f, 1) == sum_to(f, 0) + f(0));
    } else {
        let s1 = (s - 1) as nat;
        let h = pow2(s1);
        vstd::arithmetic::power2::lemma_pow2_unfold(s);
        vstd::arithmetic::power2::lemma_pow2_pos(s1);
        lemma_pass_root_family::<F>(inverse, s);
        let rq = pass_root::<F>(inverse, s1);
        // split off the upper half: r^((h + k) d) = r^(k d) * r^(h d)
        lemma_sum_split(f, h, h);
        assert(h + h == pow2(s));
        let upper = |k: int| f(h + k);
        let sgn = pow(r, h * d) % p;
        vstd::arithmetic::power::lemma_pow_multiplies(r, h, d);
        vstd::arithmetic::power::lemma_pow_mod_noop(pow(r, h), d, p);
        lemma_neg_one_pow(d, p);
        assert(sgn == if d % 2 == 0 { 1 } else { p - 1 });
        let scaled = |k: int| sgn * f(k);
        assert forall|k: int| 0 <= k < h implies #[trigger] upper(k) % p == scaled(k) % p by {
            assert(((h + k) * d) as nat == (k * d) as nat + h * d) by (nonlinear_arith)
                requires 0 <= k, h >= 1;
            assert((k * d) >= 0) by (nonlinear_arith)
                requires 0 <= k;
            vstd::arithmetic::power::lemma_pow_adds(r, (k * d) as nat, h * d);
            lemma_mul_mod_noop_right(f(k), pow(r, h * d), p);
            assert(sgn * f(k) == f(k) * sgn) by (nonlinear_arith);
        }
        lemma_sum_mod(upper, scaled, h, p);
        lemma_sum_scale(f, scaled, sgn, h);
        let g = sum_to(f, h);
        // total = g + sgn * g (mod p)
        lemma_add_mod_noop(g, sum_to(upper, h), p);
        lemma_add_mod_noop(g, sgn * g, p);
        lemma_mod_mod(d as int, 2, h as int);
        if d % 2 == 1 {
            assert(g + (p - 1) * g == p * g) by (nonlinear_arith);
            lemma_mod_multiples_vanish(g, 0, p);
            lemma_small_mod(0, p as nat);
            assert(d % pow2(s) != 0);
        } else {
            let e = d / 2;
            assert(d == 2 * e);
            let fq = geometric(rq, e);
            assert forall|k: int| 0 <= k < h implies #[trigger] f(k) % p == fq(k) % p by {
                assert((k * d) as nat == 2 * ((k * e) as nat)) by (nonlinear_arith)
                    requires 0 <= k, d == 2 * e;
                vstd::arithmetic::power::lemma_pow_multiplies(r, 2, (k * e) as nat);
                vstd::arithmetic::power::lemma_square_is_pow2(r);
                vstd::arithmetic::power::lemma_pow_mod_noop(r * r, (k * e) as nat, p);
                vstd::arithmetic::power::lemma_pow_mod_noop(rq, (k * e) as nat, p);
            }
            lemma_sum_mod(f, fq, h, p);
            lemma_orthogonality::<F>(inverse, s1, e);
            assert(g + 1 * g == 2 * g);
            lemma_mul_mod_noop_right(2, g, p);
            lemma_mod_breakdown(d as int, 2, h as int);
            assert(d % pow2(s) == 2 * (e % h));
            if e % h == 0 {
                lemma_mul_mod_noop_right(2, h as int, p);
            } else {
                lemma_small_mod(0, p as nat);
            }
        }
    }
}

/// The pass-`s` root (of either direction) has order dividing `2^s`:
/// `r_s^(2^s) = 1`.
pub proof fn lemma_root_pow_n<F: Field>(inverse: bool, s: nat)
    requires
        s <= F::two_adicity_spec(),
    ensures
        0 <= pass_root::<F>(inverse, s) < F::p(),
        pow_mod(pass_root::<F>(inverse, s), pow2(s), F::p()) == 1,
{
    F::lemma_prime_field();
    F::lemma_modulus();
    F::lemma_root_order();
    let p = F::p();
    let r = pass_root::<F>(inverse, s);
    lemma_mod_bound(pow(F::prim_root_val(), pow2((F::two_adicity_spec() - s) as nat)), p);
    lemma_mod_bound(F::inv_val(stage_root::<F>(s)), p);
    assert((p - 1) * (p - 1) == p * (p - 2) + 1) by (nonlinear_arith);
    lemma_mod_multiples_vanish(p - 2, 1, p);
    lemma_small_mod(1, p as nat);
    if s == 0 {
        lemma_pass_root_family::<F>(inverse, 1);
        let r1 = pass_root::<F>(inverse, 1);
        vstd::arithmetic::power2::lemma2_to64();
        vstd::arithmetic::power::lemma_pow1(r1);
        lemma_small_mod(r1 as nat, p as nat);
        assert(r1 == p - 1);
        vstd::arithmetic::power::lemma_pow1(r);
        lemma_small_mod(r as nat, p as nat);
    } else {
        lemma_pass_root_family::<F>(inverse, s);
        let h = pow2((s - 1) as nat);
        vstd::arithmetic::power2::lemma_pow2_unfold(s);
        vstd::arithmetic::power::lemma_pow_adds(r, h, h);
        lemma_mul_mod_noop(pow(r, h), pow(r, h), p);
    }
}

/// The roots of the two directions are inverses, so powers of one are
/// powers of the other: `r'^j = r^((2^s - 1) j)`.
pub proof fn lemma_inverse_root_power<F: Field>(inverse: bool, s: nat, j: nat)
    requires
        s <= F::two_adicity_spec(),
    ensures
        pow_mod(pass_root::<F>(!inverse, s), j, F::p()) == pow_mod(
            pass_root::<F>(inverse, s),
            ((pow2(s) - 1) * j) as nat,
            F::p(),
        ),
{
    F::lemma_prime_field();
    F::lemma_modulus();
    let p = F::p();
    let w = stage_root::<F>(s);
    let r = pass_root::<F>(inverse, s);
    let ir = pass_root::<F>(!inverse, s);
    let n = pow2(s);
    vstd::arithmetic::power2::lemma_pow2_pos(s);
    lemma_root_pow_n::<F>(inverse, s);
    lemma_root_pow_n::<F>(!inverse, s);
    lemma_root_nonzero::<F>(s);
    // the two roots are inverses of each other
    assert(fm(w, F::inv_val(w), p) == 1);
    lemma_mul_mod_noop_right(w, F::inv_val(w), p);
    assert((r * ir) % p == 1) by {
        if inverse {
            assert(r * ir == ir * r) by (nonlinear_arith);
        }
    }
    if r == 0 {
        lemma_small_mod(0, p as nat);
        assert(r * ir == 0);
    }
    // so is r^(n-1)
    let q = pow_mod(r, (n - 1) as nat, p);
    lemma_mod_bound(pow(r, (n - 1) as nat), p);
    lemma_mul_mod_noop_right(r, pow(r, (n - 1) as nat), p);
    vstd::arithmetic::power::lemma_pow_adds(r, 1, (n - 1) as nat);
    vstd::arithmetic::power::lemma_pow1(r);
    assert((1 + (n - 1) as nat) as nat == n);
    lemma_inverse_unique::<F>(r, ir, q);
    vstd::arithmetic::power::lemma_pow_mod_noop(pow(r, (n - 1) as nat), j, p);
    vstd::arithmetic::power::lemma_pow_multiplies(r, (n - 1) as nat, j);
}

/// A transform value is a sum of terms `c_i r^(k i)`, modulo `p`.
pub proof fn lemma_dft_as_sum(c: Seq<int>, r: int, k: nat, n: nat, p: int)
    requires
        p > 0,
        n >= c.len(),
    ensures
        dft_at(c, r, k as int, p) == sum_to(|i: int| coeff(c, i) * pow(r, (k * i) as nat), n) % p,
{
    lemma_poly_eval_point_mod(c, pow(r, k), p);
    lemma_poly_eval_as_sum(c, pow(r, k), n, p);
    let f = |i: int| coeff(c, i) * pow(pow(r, k), i as nat);
    let g = |i: int| coeff(c, i) * pow(r, (k * i) as nat);
    assert forall|i: int| 0 <= i < n implies #[trigger] f(i) == g(i) by {
        vstd::arithmetic::power::lemma_pow_multiplies(r, k, i as nat);
    }
    lemma_sum_ext(f, g, n);
    assert((|i: int| coeff(c, i) * pow(pow(r, k), i as nat)) =~= f);
}

/// `i + (n - 1) j` is a multiple of `n` exactly when `i == j`, for
/// `i, j < n`.
proof fn lemma_shifted_index(i: int, j: int, n: int)
    requires
        0 <= i < n,
        0 <= j < n,
    ensures
        ((i + (n - 1) * j) % n == 0) == (i == j),
{
    assert(i + (n - 1) * j == n * j + (i - j)) by (nonlinear_arith);
    lemma_mod_multiples_vanish(j, i - j, n);
    if i > j {
        lemma_small_mod((i - j) as nat, n as nat);
    } else if i < j {
        lemma_fundamental_div_mod_converse(i - j, n, -1, i - j + n);
    } else {
        lemma_small_mod(0, n as nat);
    }
}

/// Transforming the transform of `a` with the root of the other direction
/// gives `n a_j` at `j`, modulo `p`.
proof fn lemma_inversion_sum<F: Field>(inverse: bool, a: Seq<int>, y: Seq<int>, s: nat, j: int)
    requires
        s <= F::two_adicity_spec(),
        a.len() == pow2(s),
        y.len() == a.len(),
        0 <= j < a.len(),
        forall|k: int| 0 <= k < a.len() ==> #[trigger] y[k] == dft_at(a, pass_root::<F>(inverse, s), k, F::p()),
    ensures
        dft_at(y, pass_root::<F>(!inverse, s), j, F::p()) == (a[j] * pow2(s)) % F::p(),
{
    F::lemma_prime_field();
    F::lemma_modulus();
    let p = F::p();
    let n = pow2(s);
    let w = pass_root::<F>(inverse, s);
    vstd::arithmetic::power2::lemma_pow2_pos(s);
    let m = ((n - 1) * j) as nat;
    assert((n - 1) * j >= 0) by (nonlinear_arith)
        requires n >= 1, j >= 0;
    lemma_inverse_root_power::<F>(inverse, s, j as nat);
    assert(dft_at(y, pass_root::<F>(!inverse, s), j, p) == dft_at(y, w, m as int, p));
    lemma_dft_as_sum(y, w, m, n, p);
    let t = |k: int| coeff(y, k) * pow(w, (m * k) as nat);
    assert((|i: int| coeff(y, i) * pow(w, (m * i) as nat)) =~= t);
    let g = |i: int, k: int| coeff(a, i) * pow(w, (k * (i + m)) as nat);
    let cols = |k: int| sum_to(|i: int| g(i, k), n);
    // each term of the outer transform is a column sum
    assert forall|k: int| 0 <= k < n implies #[trigger] t(k) % p == cols(k) % p by {
        lemma_dft_as_sum(a, w, k as nat, n, p);
        let inner = |i: int| coeff(a, i) * pow(w, (k * i) as nat);
        let sk = sum_to(inner, n);
        assert((|i: int| coeff(a, i) * pow(w, ((k as nat) * i) as nat)) =~= inner);
        assert(coeff(y, k) == sk % p);
        let c = pow(w, (m * k) as nat);
        lemma_mul_mod_noop_left(sk, c, p);
        let col = |i: int| g(i, k);
        assert forall|i: int| 0 <= i < n implies #[trigger] col(i) == c * inner(i) by {
            assert(k * i >= 0 && m * k >= 0) by (nonlinear_arith)
                requires k >= 0, i >= 0, m >= 0;
            assert((k * (i + m)) as nat == (k * i) as nat + (m * k) as nat) by (nonlinear_arith)
                requires k >= 0, i >= 0, m >= 0;
            vstd::arithmetic::power::lemma_pow_adds(w, (k * i) as nat, (m * k) as nat);
            assert(coeff(a, i) * (pow(w, (k * i) as nat) * c) == c * (coeff(a, i) * pow(w, (k * i) as nat)))
                by (nonlinear_arith);
        }
        lemma_sum_scale(inner, col, c, n);
        assert(sk * c == c * sk) by (nonlinear_arith);
        assert((|i: int| g(i, k)) =~= col);
    }
    lemma_sum_mod(t, cols, n, p);
    lemma_sum_swap(g, n, n);
    assert((|k: int| sum_to(|i: int| g(i, k), n)) =~= cols);
    let rows = |i: int| sum_to(|k: int| g(i, k), n);
    assert((|i: int| sum_to(|k: int| g(i, k), n)) =~= rows);
    // each row is a_i times a geometric sum, which vanishes unless i == j
    let e = |i: int| if i == j { a[j] * n } else { 0 };
    assert forall|i: int| 0 <= i < n implies #[trigger] rows(i) % p == e(i) % p by {
        let d = (i + m) as nat;
        let row = |k: int| g(i, k);
        assert((|k: int| g(i, k)) =~= row);
        lemma_sum_scale(geometric(w, d), row, coeff(a, i), n);
        lemma_orthogonality::<F>(inverse, s, d);
        lemma_mul_mod_noop_right(coeff(a, i), sum_to(geometric(w, d), n), p);
        lemma_shifted_index(i, j, n as int);
        if i == j {
            lemma_mul_mod_noop_right(a[j], n as int, p);
        } else {
            lemma_small_mod(0, p as nat);
        }
    }
    lemma_sum_mod(rows, e, n, p);
    lemma_sum_single(e, n, j);
}

/// DFT inversion: transforming the transform of `a` with the inverse root
/// and scaling by `n^-1` gives back `a`.
pub proof fn lemma_dft_inversion<F: Field>(a: Seq<int>, y: Seq<int>, s: nat)
    requires
        s <= F::two_adicity_spec(),
        a.len() == pow2(s),
        y.len() == a.len(),
        forall|i: int| 0 <= i < a.len() ==> 0 <= #[trigger] a[i] < F::p(),
        forall|k: int| 0 <= k < a.len() ==> #[trigger] y[k] == dft_at(a, stage_root::<F>(s), k, F::p()),
    ensures
        forall|j: int|
            0 <= j < a.len() ==> #[trigger] fm(
                dft_at(y, pass_root::<F>(true, s), j, F::p()),
                F::inv_val(a.len() as int),
                F::p(),
            ) == a[j],
{
    F::lemma_prime_field();
    F::lemma_modulus();
    let p = F::p();
    let n = pow2(s) as int;
    vstd::arithmetic::power2::lemma_pow2_pos(s);
    crate::fft::lemma_pow2_le(s, F::two_adicity_spec());
    let ni = F::inv_val(n);
    assert(fm(n, ni, p) == 1);
    assert forall|j: int| 0 <= j < a.len() implies #[trigger] fm(dft_at(y, pass_root::<F>(true, s), j, p), ni, p)
        == a[j] by {
        lemma_inversion_sum::<F>(false, a, y, s, j);
        lemma_mul_mod_noop_left(a[j] * n, ni, p);
        assert((a[j] * n) * ni == a[j] * (n * ni)) by (nonlinear_arith);
        lemma_mul_mod_noop_right(a[j], n * ni, p);
        lemma_small_mod(a[j] as nat, p as nat);
    }
}

/// Interpolation inverts evaluation: transforming with the root the
/// coefficients that the scaled inverse transform makes of `y` gives back `y`.
pub proof fn lemma_dft_interpolation<F: Field>(y: Seq<int>, c: Seq<int>, s: nat)
    requires
        s <= F::two_adicity_spec(),
        y.len() == pow2(s),
        c.len() == y.len(),
        forall|i: int| 0 <= i < y.len() ==> 0 <= #[trigger] y[i] < F::p(),
        forall|k: int|
            0 <= k < y.len() ==> #[trigger] c[k] == fm(
                dft_at(y, pass_root::<F>(true, s), k, F::p()),
                F::inv_val(y.len() as int),
                F::p(),
            ),
    ensures
        forall|j: int| 0 <= j < y.len() ==> #[trigger] dft_at(c, stage_root::<F>(s), j, F::p()) == y[j],
{
    F::lemma_prime_field();
    F::lemma_modulus();
    let p = F::p();
    let n = pow2(s) as int;
    vstd::arithmetic::power2::lemma_pow2_pos(s);
    crate::fft::lemma_pow2_le(s, F::two_adicity_spec());
    let ni = F::inv_val(n);
    assert(fm(n, ni, p) == 1);
    let d = Seq::new(n as nat, |k: int| dft_at(y, pass_root::<F>(true, s), k, p));
    assert forall|k: int| #[trigger] coeff(c, k) == (coeff(d, k) * ni) % p by {
        if k < 0 || k >= n {
            assert(0 * ni == 0);
            lemma_small_mod(0, p as nat);
        } else {
            assert(c[k] == fm(dft_at(y, pass_root::<F>(true, s), k, p), ni, p));
            assert(d[k] == dft_at(y, pass_root::<F>(true, s), k, p));
        }
    }
    assert forall|j: int| 0 <= j < y.len() implies #[trigger] dft_at(c, stage_root::<F>(s), j, p) == y[j] by {
        lemma_inversion_sum::<F>(true, y, d, s, j);
        crate::poly_laws::lemma_poly_eval_scale(c, d, ni, pow_mod(stage_root::<F>(s), j as nat, p), p);
        lemma_mul_mod_noop_left(y[j] * n, ni, p);
        assert((y[j] * n) * ni == y[j] * (n * ni)) by (nonlinear_arith);
        lemma_mul_mod_noop_right(y[j], n * ni, p);
        lemma_small_mod(y[j] as nat, p as nat);
    }
}

/// The inverse FFT undoes the FFT: if `b` is what `fft` makes of `a` and
/// `c` is what `ifft` makes of `b`, then `c` is `a`.
pub proof fn lemma_ifft_undoes_fft<F: Field>(a: Seq<F>, b: Seq<F>, c: Seq<F>)
    requires
        is_pow2_len(a.len()),
        a.len() <= pow2(F::two_adicity_spec()),
        b.len() == a.len(),
        c.len() == a.len(),
        forall|k: int|
            0 <= k < a.len() ==> #[trigger] b[k].val() == dft_at(vals(a), stage_root::<F>(log2_of(a.len())), k, F::p()),
        forall|k: int|
            0 <= k < b.len() ==> #[trigger] c[k].val() == fm(
                dft_at(vals(b), pass_root::<F>(true, log2_of(b.len())), k, F::p()),
                F::inv_val(b.len() as int),
                F::p(),
            ),
    ensures
        vals(c) == vals(a),
{
    F::lemma_prime_field();
    let s = log2_of(a.len());
    let ks = choose|k: nat| pow2(k) == a.len();
    lemma_log2_of(ks);
    if s > F::two_adicity_spec() {
        vstd::arithmetic::power2::lemma_pow2_strictly_increases(F::two_adicity_spec(), s);
    }
    assert forall|i: int| 0 <= i < a.len() implies 0 <= #[trigger] vals(a)[i] < F::p() by {
        F::lemma_val_range(a[i]);
    }
    lemma_dft_inversion::<F>(vals(a), vals(b), s);
    assert(vals(c) =~= vals(a));
}

/// The convolution theorem: multiplying the transforms of `x` and `z`
/// pointwise and inverting gives the coefficients of their product, when
/// the product fits in the `2^s`-point domain.
pub proof fn lemma_convolution<F: Field>(
    x: Seq<int>,
    z: Seq<int>,
    pa: Seq<F>,
    pb: Seq<F>,
    ea: Seq<F>,
    eb: Seq<F>,
    c: Seq<F>,
    fin: Seq<F>,
    s: nat,
)
    requires
        s <= F::two_adicity_spec(),
        x.len() >= 1,
        z.len() >= 1,
        x.len() + z.len() - 1 <= pow2(s),
        pa.len() == pow2(s),
        pb.len() == pow2(s),
        ea.len() == pow2(s),
        eb.len() == pow2(s),
        c.len() == pow2(s),
        fin.len() == pow2(s),
        forall|i: int| #[trigger] coeff(vals(pa), i) == coeff(x, i),
        forall|i: int| #[trigger] coeff(vals(pb), i) == coeff(z, i),
        forall|k: int| 0 <= k < pow2(s) ==> #[trigger] ea[k].val() == dft_at(vals(pa), stage_root::<F>(s), k, F::p()),
        forall|k: int| 0 <= k < pow2(s) ==> #[trigger] eb[k].val() == dft_at(vals(pb), stage_root::<F>(s), k, F::p()),
        forall|k: int| 0 <= k < pow2(s) ==> #[trigger] c[k].val() == (ea[k].val() * eb[k].val()) % F::p(),
        forall|k: int|
            0 <= k < pow2(s) ==> #[trigger] fin[k].val() == fm(
                dft_at(vals(c), pass_root::<F>(true, s), k, F::p()),
                F::inv_val(pow2(s) as int),
                F::p(),
            ),
    ensures
        forall|k: int| 0 <= k < pow2(s) ==> #[trigger] fin[k].val() == conv(x, z, k, x.len(), F::p()),
{
    F::lemma_prime_field();
    F::lemma_modulus();
    let p = F::p();
    let n = pow2(s);
    let w = stage_root::<F>(s);
    let full = Seq::new(n, |k: int| conv(x, z, k, x.len(), p));
    let q = Seq::new((x.len() + z.len() - 1) as nat, |k: int| conv(x, z, k, x.len(), p));
    assert forall|k: int| #[trigger] coeff(full, k) == coeff(q, k) by {
        if k < 0 || k >= x.len() + z.len() - 1 {
            lemma_conv_outside(x, z, k, x.len(), p);
        }
    }
    assert forall|k: int| #[trigger] coeff(q, k) == conv(x, z, k, x.len(), p) by {
        if k < 0 || k >= x.len() + z.len() - 1 {
            lemma_conv_outside(x, z, k, x.len(), p);
        }
    }
    assert forall|k: int| 0 <= k < n implies #[trigger] vals(c)[k] == dft_at(full, w, k, p) by {
        let pt = pow_mod(w, k as nat, p);
        crate::poly_laws::lemma_poly_eval_same_coeffs(vals(pa), x, pt, p);
        crate::poly_laws::lemma_poly_eval_same_coeffs(vals(pb), z, pt, p);
        crate::poly_laws::lemma_poly_eval_product(q, x, z, pt, p);
        crate::poly_laws::lemma_poly_eval_same_coeffs(full, q, pt, p);
    }
    assert forall|i: int| 0 <= i < full.len() implies 0 <= #[trigger] full[i] < p by {
        lemma_conv_range(x, z, i, x.len(), p);
    }
    lemma_dft_inversion::<F>(full, vals(c), s);
}

} // verus!
