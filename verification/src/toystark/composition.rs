//! The composition of an honest trace is a polynomial of degree below the
//! trace length: each constraint vanishes where its zerofier does, so each
//! quotient is itself a polynomial.

use vstd::prelude::*;
use vstd::arithmetic::div_mod::*;
use vstd::arithmetic::mul::*;
use vstd::arithmetic::power::pow;
use vstd::arithmetic::power2::pow2;
use crate::field::{Field, inverses_correct, pow_mod, fa, fs, fm};
use crate::poly::{coeff, poly_eval, conv, lemma_conv_outside, lemma_conv_range};
use crate::dft::{dft_at, lemma_mod_inner, lemma_poly_eval_point_mod};
use crate::fri_laws::{quot, lemma_quot, lemma_poly_eval_range};
use crate::dft_laws::{sum_to, lemma_sum_single, lemma_sum_mod, lemma_poly_eval_as_sum, lemma_orthogonality, geometric, lemma_root_pow_n};
use crate::toystark::air::{progression_value, last_trace_point, lemma_progression_step, composition_spec, composition_defined};
use crate::fft::lemma_inverse_unique;
use crate::lde::coset_point;
use crate::fri_laws::layer_is_poly;
use crate::layers::{fri_generator, lemma_coset_point_is_domain_point};
use crate::fri_laws::lemma_vanishing;
use crate::fft::{stage_root, pass_root, no_zero_divisors, lemma_pow_nonzero, lemma_root_nonzero};

verus! {

/// `ca * a + cb * b`, coefficient by coefficient, evaluates to
/// `ca * a(x) + cb * b(x)`.
pub proof fn lemma_eval_lin2(r: Seq<int>, a: Seq<int>, b: Seq<int>, ca: int, cb: int, x: int, p: int)
    requires
        p > 0,
        forall|k: int| #[trigger] coeff(r, k) == (ca * coeff(a, k) + cb * coeff(b, k)) % p,
    ensures
        poly_eval(r, x, p) == (ca * poly_eval(a, x, p) + cb * poly_eval(b, x, p)) % p,
{
    let sa = Seq::new(a.len(), |k: int| (a[k] * ca) % p);
    let sb = Seq::new(b.len(), |k: int| (b[k] * cb) % p);
    assert forall|k: int| #[trigger] coeff(sa, k) == (coeff(a, k) * ca) % p by {
        if !(0 <= k < a.len()) {
            assert(0 * ca == 0);
            lemma_small_mod(0, p as nat);
        }
    }
    assert forall|k: int| #[trigger] coeff(sb, k) == (coeff(b, k) * cb) % p by {
        if !(0 <= k < b.len()) {
            assert(0 * cb == 0);
            lemma_small_mod(0, p as nat);
        }
    }
    assert forall|k: int| #[trigger] coeff(r, k) == (coeff(sa, k) + coeff(sb, k)) % p by {
        lemma_add_mod_noop(coeff(a, k) * ca, coeff(b, k) * cb, p);
        assert(coeff(a, k) * ca == ca * coeff(a, k)) by (nonlinear_arith);
        assert(coeff(b, k) * cb == cb * coeff(b, k)) by (nonlinear_arith);
    }
    crate::poly_laws::lemma_poly_eval_scale(sa, a, ca, x, p);
    crate::poly_laws::lemma_poly_eval_scale(sb, b, cb, x, p);
    crate::poly_laws::lemma_poly_eval_add(r, sa, sb, x, p);
    lemma_add_mod_noop(poly_eval(a, x, p) * ca, poly_eval(b, x, p) * cb, p);
    assert(poly_eval(a, x, p) * ca == ca * poly_eval(a, x, p)) by (nonlinear_arith);
    assert(poly_eval(b, x, p) * cb == cb * poly_eval(b, x, p)) by (nonlinear_arith);
}

/// The polynomial `t - v`.
pub open spec fn sub_const(t: Seq<int>, v: int) -> Seq<int> {
    Seq::new(if t.len() == 0 { 1 } else { t.len() }, |k: int| if k == 0 { coeff(t, 0) - v } else { t[k] })
}

/// `(t - v)(x) = t(x) - v`.
pub proof fn lemma_eval_sub_const(t: Seq<int>, v: int, x: int, p: int)
    requires
        p > 0,
    ensures
        poly_eval(sub_const(t, v), x, p) == (poly_eval(t, x, p) - v) % p,
{
    let s = sub_const(t, v);
    let rest = s.drop_first();
    if t.len() == 0 {
        assert(rest.len() == 0);
        assert(poly_eval(rest, x, p) == 0);
        assert(x * 0 == 0);
        assert(s[0] == 0 - v);
        assert(poly_eval(s, x, p) == (s[0] + x * poly_eval(rest, x, p)) % p);
        assert(poly_eval(t, x, p) == 0);
    } else {
        assert(rest =~= t.drop_first());
        let w = poly_eval(rest, x, p);
        let aa = t[0] + x * w;
        assert(poly_eval(t, x, p) == aa % p);
        assert(poly_eval(s, x, p) == (s[0] + x * w) % p);
        assert(s[0] + x * w == aa + (0 - v));
        lemma_add_mod_noop(aa, 0 - v, p);
        lemma_add_mod_noop(aa % p, 0 - v, p);
        lemma_mod_twice(aa, p);
        assert((aa % p - v) == aa % p + (0 - v));
    }
}

/// Dividing by `x - a` a polynomial with a root at `a` gives the synthetic
/// quotient.
pub proof fn lemma_divide_by_root<F: Field>(q: Seq<int>, a: int, x: int)
    requires
        poly_eval(q, a, F::p()) == 0,
        fs(x, a, F::p()) != 0,
    ensures
        fm(poly_eval(q, x, F::p()), F::inv_val(fs(x, a, F::p())), F::p()) == poly_eval(quot(q, a, F::p()), x, F::p()),
{
    F::lemma_prime_field();
    F::lemma_modulus();
    let p = F::p();
    let d = fs(x, a, p);
    let qq = poly_eval(quot(q, a, p), x, p);
    lemma_quot(q, a, x, p);
    lemma_mod_bound(x - a, p);
    assert(fm(d, F::inv_val(d), p) == 1);
    let iv = F::inv_val(d);
    // q(x) = (x - a) Q(x), modulo p
    lemma_mul_mod_noop_left(x - a, qq, p);
    assert(poly_eval(q, x, p) == ((x - a) * qq) % p);
    lemma_mul_mod_noop_left((x - a) * qq, iv, p);
    assert(((x - a) * qq) * iv == qq * ((x - a) * iv)) by (nonlinear_arith);
    lemma_mul_mod_noop_right(qq, (x - a) * iv, p);
    lemma_mul_mod_noop_left(x - a, iv, p);
    lemma_poly_eval_range(quot(q, a, p), x, p);
    lemma_small_mod(qq as nat, p as nat);
    assert(qq * 1 == qq);
}

/// The polynomial `x^n - 1`.
pub open spec fn xn_minus_one(n: nat, p: int) -> Seq<int> {
    Seq::new(n + 1, |k: int| if k == 0 { p - 1 } else if k == n { 1 } else { 0 })
}

/// `x^n - 1` evaluates to `x^n - 1`.
pub proof fn lemma_eval_xn_minus_one(n: nat, x: int, p: int)
    requires
        n >= 1,
        p > 1,
    ensures
        poly_eval(xn_minus_one(n, p), x, p) == fs(pow_mod(x, n, p), 1, p),
{
    let z = xn_minus_one(n, p);
    lemma_poly_eval_as_sum(z, x, n + 1, p);
    let f = |k: int| coeff(z, k) * pow(x, k as nat);
    assert((|k: int| coeff(z, k) * pow(x, k as nat)) =~= f);
    assert forall|k: int| 0 <= k < n && k != 0 implies #[trigger] f(k) == 0 by {}
    lemma_sum_single(f, n, 0);
    vstd::arithmetic::power::lemma_pow0(x);
    assert(sum_to(f, n + 1) == sum_to(f, n) + f(n as int));
    assert(sum_to(f, n + 1) == (p - 1) + pow(x, n));
    lemma_mod_multiples_vanish(1, pow(x, n) - 1, p);
    assert((p - 1) + pow(x, n) == p * 1 + (pow(x, n) - 1));
    lemma_sub_mod_noop(pow(x, n), 1, p);
    lemma_small_mod(1, p as nat);
}

/// A sum of ones.
proof fn lemma_sum_ones(f: spec_fn(int) -> int, n: nat)
    requires
        forall|k: int| 0 <= k < n ==> #[trigger] f(k) == 1,
    ensures
        sum_to(f, n) == n,
    decreases n,
{
    if n > 0 {
        lemma_sum_ones(f, (n - 1) as nat);
    }
}

/// The powers `w^0, ..., w^(n-1)` of the `n`-point root are distinct.
pub proof fn lemma_root_powers_distinct<F: Field>(s: nat, i: nat, j: nat)
    requires
        s <= F::two_adicity_spec(),
        i < j < pow2(s),
    ensures
        pow_mod(stage_root::<F>(s), i, F::p()) != pow_mod(stage_root::<F>(s), j, F::p()),
{
    F::lemma_prime_field();
    F::lemma_modulus();
    let p = F::p();
    let w = stage_root::<F>(s);
    let n = pow2(s);
    let d = (j - i) as nat;
    crate::fft::lemma_pow2_le(s, F::two_adicity_spec());
    if pow_mod(w, i, p) == pow_mod(w, j, p) {
        lemma_root_nonzero::<F>(s);
        lemma_root_pow_n::<F>(false, s);
        lemma_pow_nonzero::<F>(w, i);
        // w^i (w^d - 1) = 0, so w^d = 1
        let a = pow_mod(w, i, p);
        let b = (pow(w, d) - 1) % p;
        vstd::arithmetic::power::lemma_pow_adds(w, i, d);
        assert(i + d == j);
        lemma_mul_mod_noop(pow(w, i), pow(w, d) - 1, p);
        assert(pow(w, i) * (pow(w, d) - 1) == pow(w, j) - pow(w, i)) by (nonlinear_arith)
            requires pow(w, j) == pow(w, i) * pow(w, d);
        lemma_sub_mod_noop(pow(w, j), pow(w, i), p);
        lemma_small_mod(0, p as nat);
        assert((a * b) % p == 0);
        lemma_mod_bound(pow(w, d) - 1, p);
        if b != 0 {
            assert((a * b) % p != 0);
        }
        assert(pow(w, d) % p == 1) by {
            lemma_mod_bound(pow(w, d), p);
            lemma_sub_mod_noop(pow(w, d), 1, p);
            lemma_small_mod(1, p as nat);
            let r = pow(w, d) % p;
            if r != 1 {
                if r == 0 {
                    lemma_fundamental_div_mod_converse(-1, p, -1, p - 1);
                } else {
                    lemma_small_mod((r - 1) as nat, p as nat);
                }
            }
        }
        // then every term of the geometric sum is one
        let f = geometric(w, d);
        let ones = |k: int| 1int;
        assert forall|k: int| 0 <= k < n implies #[trigger] f(k) % p == ones(k) % p by {
            vstd::arithmetic::power::lemma_pow_multiplies(w, d, k as nat);
            assert((k * d) as nat == d * (k as nat)) by (nonlinear_arith)
                requires k >= 0;
            vstd::arithmetic::power::lemma_pow_mod_noop(pow(w, d), k as nat, p);
            vstd::arithmetic::power::lemma1_pow(k as nat);
        }
        lemma_sum_mod(f, ones, n, p);
        lemma_sum_ones(ones, n);
        lemma_orthogonality::<F>(false, s, d);
        lemma_small_mod(d, n);
        lemma_small_mod(n, p as nat);
        vstd::arithmetic::power2::lemma_pow2_pos(s);
    }
}

/// The polynomial `t(w x)`: coefficient `k` scaled by `w^k`.
pub open spec fn shifted(t: Seq<int>, w: int, p: int) -> Seq<int> {
    Seq::new(t.len(), |k: int| (t[k] * (pow(w, k as nat) % p)) % p)
}

/// The transition numerator `t(w x) - t(x) - step`, as a polynomial.
pub open spec fn transition_poly(t: Seq<int>, w: int, step: int, p: int) -> Seq<int> {
    sub_const(Seq::new(t.len(), |k: int| (1 * coeff(shifted(t, w, p), k) + (-1) * coeff(t, k)) % p), step)
}

/// The transition numerator polynomial evaluates to the transition
/// numerator at `x`.
pub proof fn lemma_eval_transition_poly(t: Seq<int>, w: int, step: int, x: int, p: int)
    requires
        p > 1,
    ensures
        poly_eval(transition_poly(t, w, step, p), x, p) == fs(
            fs(poly_eval(t, (w * x) % p, p), poly_eval(t, x, p), p),
            step,
            p,
        ),
{
    let sh = shifted(t, w, p);
    let d = Seq::new(t.len(), |k: int| (1 * coeff(sh, k) + (-1) * coeff(t, k)) % p);
    crate::poly_laws::lemma_poly_eval_coset(sh, t, w, x, p);
    lemma_poly_eval_point_mod(t, w * x, p);
    assert forall|k: int| #[trigger] coeff(d, k) == (1 * coeff(sh, k) + (-1) * coeff(t, k)) % p by {
        if !(0 <= k < t.len()) {
            lemma_small_mod(0, p as nat);
        }
    }
    lemma_eval_lin2(d, sh, t, 1, -1, x, p);
    lemma_eval_sub_const(d, step, x, p);
}

/// `s` times `x - a`.
pub open spec fn times_linear(s: Seq<int>, a: int, p: int) -> Seq<int> {
    Seq::new(s.len() + 1, |k: int| conv(s, seq![(0 - a) % p, 1int], k, s.len(), p))
}

/// `(s * (x - a))(x) = s(x) * (x - a)`.
pub proof fn lemma_eval_times_linear(s: Seq<int>, a: int, x: int, p: int)
    requires
        p > 1,
        s.len() >= 1,
    ensures
        poly_eval(times_linear(s, a, p), x, p) == (poly_eval(s, x, p) * fs(x, a, p)) % p,
{
    let lf = seq![(0 - a) % p, 1int];
    let r = times_linear(s, a, p);
    assert forall|k: int| #[trigger] coeff(r, k) == conv(s, lf, k, s.len(), p) by {
        if !(0 <= k < r.len()) {
            lemma_conv_outside(s, lf, k, s.len(), p);
        }
    }
    crate::poly_laws::lemma_poly_eval_product(r, s, lf, x, p);
    crate::interpolate::lemma_eval_linear_factor((0 - a) % p, x, a, p);
}

/// `(X mod p) - X` is a multiple of `p`.
proof fn lemma_mod_minus_self(x: int, p: int)
    requires
        p > 0,
    ensures
        (x % p - x) % p == 0,
{
    lemma_fundamental_div_mod(x, p);
    assert(x % p - x == (0 - x / p) * p) by (nonlinear_arith)
        requires x == p * (x / p) + x % p;
    lemma_mod_multiples_basic(0 - x / p, p);
}

/// The transition numerator times `x - w^(n-1)` vanishes on the whole
/// trace domain when the trace polynomial follows the progression there.
pub proof fn lemma_transition_vanishes<F: Field>(t: Seq<int>, l: nat, start: int, step: int, i: nat)
    requires
        l <= F::two_adicity_spec(),
        i < pow2(l),
        forall|j: int|
            0 <= j < pow2(l) ==> #[trigger] dft_at(t, stage_root::<F>(l), j, F::p()) == progression_value::<F>(
                start,
                step,
                j,
            ),
    ensures
        poly_eval(
            times_linear(transition_poly(t, stage_root::<F>(l), step, F::p()), last_trace_point::<F>(pow2(l)), F::p()),
            pow_mod(stage_root::<F>(l), i, F::p()),
            F::p(),
        ) == 0,
{
    F::lemma_modulus();
    let p = F::p();
    let n = pow2(l);
    let w = stage_root::<F>(l);
    let last = last_trace_point::<F>(n);
    crate::fft::lemma_log2_of(l);
    assert(last == pow_mod(w, (n - 1) as nat, p));
    let x = pow_mod(w, i, p);
    let tp = transition_poly(t, w, step, p);
    lemma_eval_times_linear(tp, last, x, p);
    lemma_small_mod(0, p as nat);
    if i == n - 1 {
        assert(fs(x, last, p) == 0);
        assert(poly_eval(tp, x, p) * 0 == 0);
    } else {
        lemma_eval_transition_poly(t, w, step, x, p);
        crate::dft::lemma_pow_mod_step(w, i, p);
        assert((w * x) % p == pow_mod(w, i + 1, p)) by {
            assert(w * x == x * w) by (nonlinear_arith);
        }
        let a = progression_value::<F>(start, step, i as int);
        let b = progression_value::<F>(start, step, i + 1 as int);
        assert(dft_at(t, w, i as int, p) == a);
        assert(dft_at(t, w, i + 1 as int, p) == b);
        lemma_progression_step::<F>(start, step, i as int);
        // (b - a) - step = (a + step) mod p - (a + step) = 0, modulo p
        lemma_add_mod_noop(b - a, 0 - step, p);
        lemma_add_mod_noop((b - a) % p, 0 - step, p);
        lemma_mod_twice(b - a, p);
        lemma_mod_minus_self(a + step, p);
        assert(b - a - step == (a + step) % p - (a + step));
        assert(poly_eval(tp, x, p) == 0);
        assert(0 * fs(x, last, p) == 0);
    }
}

/// The transition numerator times `x - w^(n-1)` is a constant multiple of
/// `x^n - 1`: its top coefficient times `x^n - 1`.
pub proof fn lemma_transition_divisible<F: Field>(t: Seq<int>, l: nat, start: int, step: int, x: int)
    requires
        l <= F::two_adicity_spec(),
        t.len() <= pow2(l),
        forall|j: int|
            0 <= j < pow2(l) ==> #[trigger] dft_at(t, stage_root::<F>(l), j, F::p()) == progression_value::<F>(
                start,
                step,
                j,
            ),
    ensures
        ({
            let nn = times_linear(transition_poly(t, stage_root::<F>(l), step, F::p()), last_trace_point::<F>(pow2(l)), F::p());
            &&& nn.len() <= pow2(l) + 1
            &&& poly_eval(nn, x, F::p()) == (coeff(nn, pow2(l) as int) * poly_eval(xn_minus_one(pow2(l), F::p()), x, F::p())) % F::p()
        }),
{
    F::lemma_prime_field();
    F::lemma_modulus();
    let p = F::p();
    let n = pow2(l);
    vstd::arithmetic::power2::lemma_pow2_pos(l);
    let w = stage_root::<F>(l);
    let last = last_trace_point::<F>(n);
    let nn = times_linear(transition_poly(t, w, step, p), last, p);
    let top = coeff(nn, n as int);
    let z = xn_minus_one(n, p);
    let m = Seq::new(n, |k: int| (1 * coeff(nn, k) + (-top) * coeff(z, k)) % p);
    assert forall|k: int| #[trigger] coeff(m, k) == (1 * coeff(nn, k) + (-top) * coeff(z, k)) % p by {
        if k == n {
            lemma_small_mod(0, p as nat);
        } else if !(0 <= k < n) {
            lemma_small_mod(0, p as nat);
        }
    }
    let pts = Seq::new(n, |i: int| pow_mod(w, i as nat, p));
    lemma_root_pow_n::<F>(false, l);
    assert forall|i: int| 0 <= i < pts.len() implies 0 <= #[trigger] pts[i] < p by {
        lemma_mod_bound(pow(w, i as nat), p);
    }
    assert forall|i: int, j: int| 0 <= i < j < pts.len() implies #[trigger] pts[i] != #[trigger] pts[j] by {
        lemma_root_powers_distinct::<F>(l, i as nat, j as nat);
    }
    assert forall|i: int| 0 <= i < pts.len() implies #[trigger] poly_eval(m, pts[i], p) == 0 by {
        let y = pts[i];
        lemma_transition_vanishes::<F>(t, l, start, step, i as nat);
        lemma_eval_lin2(m, nn, z, 1, -top, y, p);
        lemma_eval_xn_minus_one(n, y, p);
        // y^n = w^(i n) = (w^n)^i = 1
        vstd::arithmetic::power::lemma_pow_mod_noop(pow(w, i as nat), n, p);
        vstd::arithmetic::power::lemma_pow_multiplies(w, i as nat, n);
        vstd::arithmetic::power::lemma_pow_multiplies(w, n, i as nat);
        assert((i as nat) * n == n * (i as nat)) by (nonlinear_arith);
        vstd::arithmetic::power::lemma_pow_mod_noop(pow(w, n), i as nat, p);
        vstd::arithmetic::power::lemma1_pow(i as nat);
        lemma_small_mod(1, p as nat);
        lemma_small_mod(0, p as nat);
        assert(pow_mod(y, n, p) == 1);
        assert(poly_eval(z, y, p) == 0);
        assert((-top) * 0 == 0);
    }
    lemma_vanishing::<F>(m, pts, x);
    lemma_eval_lin2(m, nn, z, 1, -top, x, p);
    let nx = poly_eval(nn, x, p);
    let zx = poly_eval(z, x, p);
    lemma_poly_eval_range(nn, x, p);
    // nx - top zx = 0 (mod p), so nx = top zx (mod p)
    lemma_add_mod_noop(nx + (-top) * zx, top * zx, p);
    lemma_small_mod(0, p as nat);
    lemma_mod_twice(top * zx, p);
    assert(nx + (-top) * zx + top * zx == nx) by (nonlinear_arith);
    lemma_small_mod(nx as nat, p as nat);
}

/// The composition polynomial of a trace polynomial `t`: the constant top
/// coefficient of the transition quotient times `alpha_0`, plus the start
/// and end quotients times `alpha_1` and `alpha_2`.
pub open spec fn composition_poly<F: Field>(t: Seq<int>, l: nat, start: int, step: int, alphas: (int, int, int)) -> Seq<int> {
    let p = F::p();
    let n = pow2(l);
    let w = stage_root::<F>(l);
    let last = last_trace_point::<F>(n);
    let top = coeff(times_linear(transition_poly(t, w, step, p), last, p), n as int);
    let qs = quot(sub_const(t, start), 1, p);
    let qe = quot(sub_const(t, progression_value::<F>(start, step, n - 1)), last, p);
    let c1 = Seq::new(
        if qs.len() > 1 { qs.len() } else { 1 },
        |k: int| (alphas.0 * coeff(seq![top], k) + alphas.1 * coeff(qs, k)) % p,
    );
    Seq::new(if qe.len() > c1.len() { qe.len() } else { c1.len() }, |k: int| (1 * coeff(c1, k) + alphas.2 * coeff(qe, k)) % p)
}

/// The transition quotient of an honest trace is the constant top
/// coefficient.
proof fn lemma_transition_quotient<F: Field>(tn: int, dx: int, zx: int, nx: int, top: int)
    requires
        0 <= top < F::p(),
        0 < dx < F::p(),
        0 <= zx < F::p(),
        fm(zx, F::inv_val(dx), F::p()) != 0,
        nx == (tn * dx) % F::p(),
        nx == (top * zx) % F::p(),
    ensures
        fm(tn, F::inv_val(fm(zx, F::inv_val(dx), F::p())), F::p()) == top,
{
    F::lemma_prime_field();
    F::lemma_modulus();
    let p = F::p();
    let tz = fm(zx, F::inv_val(dx), p);
    lemma_mod_bound(zx * F::inv_val(dx), p);
    if zx == 0 {
        assert(0 * F::inv_val(dx) == 0);
        lemma_small_mod(0, p as nat);
    }
    let iz = F::inv_val(zx) % p;
    let idx = F::inv_val(dx) % p;
    let itz = F::inv_val(tz) % p;
    assert(fm(zx, F::inv_val(zx), p) == 1);
    assert(fm(dx, F::inv_val(dx), p) == 1);
    assert(fm(tz, F::inv_val(tz), p) == 1);
    lemma_mul_mod_noop_right(zx, F::inv_val(zx), p);
    lemma_mul_mod_noop_right(dx, F::inv_val(dx), p);
    lemma_mul_mod_noop_right(tz, F::inv_val(tz), p);
    lemma_mod_bound(F::inv_val(zx), p);
    lemma_mod_bound(F::inv_val(dx), p);
    lemma_mod_bound(F::inv_val(tz), p);
    // the inverse of tz = zx / dx is dx / zx
    let cand = (dx * iz) % p;
    lemma_mod_bound(dx * iz, p);
    lemma_mul_mod_noop_right(zx, F::inv_val(dx), p);
    assert(tz == (zx * idx) % p);
    lemma_mul_mod_noop(zx * idx, dx * iz, p);
    assert((zx * idx) * (dx * iz) == (zx * iz) * (dx * idx)) by (nonlinear_arith);
    lemma_mul_mod_noop(zx * iz, dx * idx, p);
    lemma_small_mod(1, p as nat);
    assert((tz * cand) % p == 1);
    lemma_inverse_unique::<F>(tz, itz, cand);
    // tq = tn * dx * iz = nx * iz = top * zx * iz = top
    lemma_mul_mod_noop_right(tn, F::inv_val(tz), p);
    lemma_mul_mod_noop_right(tn, dx * iz, p);
    assert(tn * (dx * iz) == (tn * dx) * iz) by (nonlinear_arith);
    lemma_mul_mod_noop_left(tn * dx, iz, p);
    lemma_mul_mod_noop_left(top * zx, iz, p);
    assert((top * zx) * iz == top * (zx * iz)) by (nonlinear_arith);
    lemma_mul_mod_noop_right(top, zx * iz, p);
    lemma_small_mod(top as nat, p as nat);
    assert(top * 1 == top);
}

/// The composition of an honest trace is a polynomial with at most `n`
/// coefficients: when `t` takes the progression's values on the `n`-point
/// trace domain, the composition at any point off that domain, computed
/// from `t(x)` and `t(w x)`, is `composition_poly` at that point.
pub proof fn lemma_composition_is_polynomial<F: Field>(
    t: Seq<int>,
    l: nat,
    start: int,
    step: int,
    alphas: (int, int, int),
    x: int,
)
    requires
        l <= F::two_adicity_spec(),
        t.len() <= pow2(l),
        forall|j: int|
            0 <= j < pow2(l) ==> #[trigger] dft_at(t, stage_root::<F>(l), j, F::p()) == progression_value::<F>(
                start,
                step,
                j,
            ),
        composition_defined::<F>(x, pow2(l), last_trace_point::<F>(pow2(l))),
    ensures
        composition_poly::<F>(t, l, start, step, alphas).len() <= pow2(l),
        composition_spec::<F>(
            x,
            poly_eval(t, x, F::p()),
            poly_eval(t, (stage_root::<F>(l) * x) % F::p(), F::p()),
            pow2(l),
            last_trace_point::<F>(pow2(l)),
            progression_value::<F>(start, step, pow2(l) - 1),
            start,
            step,
            alphas,
        ) == poly_eval(composition_poly::<F>(t, l, start, step, alphas), x, F::p()),
{
    F::lemma_prime_field();
    F::lemma_modulus();
    let p = F::p();
    let n = pow2(l);
    vstd::arithmetic::power2::lemma_pow2_pos(l);
    let w = stage_root::<F>(l);
    let last = last_trace_point::<F>(n);
    let end = progression_value::<F>(start, step, n - 1);
    crate::fft::lemma_log2_of(l);
    assert(last == pow_mod(w, (n - 1) as nat, p));
    let tx = poly_eval(t, x, p);
    let tnext = poly_eval(t, (w * x) % p, p);
    lemma_small_mod(0, p as nat);
    lemma_small_mod(1, p as nat);
    // start quotient: t - start has a root at 1
    let ss = sub_const(t, start);
    let qs = quot(ss, 1, p);
    vstd::arithmetic::power::lemma_pow0(w);
    assert(dft_at(t, w, 0, p) == poly_eval(t, 1, p));
    assert(progression_value::<F>(start, step, 0) == fa(start, fm(step, 0, p), p));
    assert(step * 0 == 0);
    lemma_eval_sub_const(t, start, 1, p);
    lemma_mod_minus_self(start, p);
    assert(poly_eval(t, 1, p) == start % p);
    lemma_eval_sub_const(t, start, x, p);
    lemma_divide_by_root::<F>(ss, 1, x);
    let sq = fm(fs(tx, start, p), F::inv_val(fs(x, 1, p)), p);
    assert(sq == poly_eval(qs, x, p));
    // end quotient: t - end has a root at the last point
    let se = sub_const(t, end);
    let qe = quot(se, last, p);
    assert(dft_at(t, w, n - 1, p) == end);
    lemma_eval_sub_const(t, end, last, p);
    lemma_eval_sub_const(t, end, x, p);
    assert(poly_eval(se, last, p) == 0);
    lemma_divide_by_root::<F>(se, last, x);
    let eq = fm(fs(tx, end, p), F::inv_val(fs(x, last, p)), p);
    assert(eq == poly_eval(qe, x, p));
    // transition quotient: the top coefficient
    let tp = transition_poly(t, w, step, p);
    let nn = times_linear(tp, last, p);
    let top = coeff(nn, n as int);
    lemma_eval_transition_poly(t, w, step, x, p);
    lemma_eval_times_linear(tp, last, x, p);
    lemma_transition_divisible::<F>(t, l, start, step, x);
    lemma_eval_xn_minus_one(n, x, p);
    let tn = fs(fs(tnext, tx, p), step, p);
    let dx = fs(x, last, p);
    let zx = fs(pow_mod(x, n, p), 1, p);
    lemma_mod_bound(x - last, p);
    lemma_mod_bound(pow_mod(x, n, p) - 1, p);
    if 0 <= n < nn.len() {
        lemma_conv_range(tp, seq![(0 - last) % p, 1int], n as int, tp.len(), p);
    }
    lemma_transition_quotient::<F>(tn, dx, zx, poly_eval(nn, x, p), top);
    let tq = fm(tn, F::inv_val(fm(zx, F::inv_val(dx), p)), p);
    assert(tq == top);
    // the combination
    let c1 = Seq::new(
        if qs.len() > 1 { qs.len() } else { 1 },
        |k: int| (alphas.0 * coeff(seq![top], k) + alphas.1 * coeff(qs, k)) % p,
    );
    let c = composition_poly::<F>(t, l, start, step, alphas);
    assert forall|k: int| #[trigger] coeff(c1, k) == (alphas.0 * coeff(seq![top], k) + alphas.1 * coeff(qs, k)) % p by {
        if !(0 <= k < c1.len()) {
            assert(alphas.0 * 0 + alphas.1 * 0 == 0);
        }
    }
    assert forall|k: int| #[trigger] coeff(c, k) == (1 * coeff(c1, k) + alphas.2 * coeff(qe, k)) % p by {
        if !(0 <= k < c.len()) {
            assert(1 * 0 + alphas.2 * 0 == 0);
        }
    }
    let st = seq![top];
    assert(st.drop_first().len() == 0);
    assert(poly_eval(st.drop_first(), x, p) == 0);
    assert(x * 0 == 0);
    lemma_small_mod(top as nat, p as nat);
    assert(poly_eval(st, x, p) == top);
    lemma_eval_lin2(c1, st, qs, alphas.0, alphas.1, x, p);
    lemma_eval_lin2(c, c1, qe, 1, alphas.2, x, p);
    let c1x = poly_eval(c1, x, p);
    lemma_add_mod_noop(alphas.0 * top, alphas.1 * sq, p);
    lemma_mod_inner(c1x, alphas.2, eq, p);
    lemma_add_mod_noop(c1x, alphas.2 * eq, p);
    lemma_mod_twice(c1x, p);
    lemma_poly_eval_range(c1, x, p);
    assert(c1x == (alphas.0 * top + alphas.1 * sq) % p);
    assert(poly_eval(c, x, p) == (1 * c1x + alphas.2 * eq) % p);
    assert(composition_spec::<F>(x, tx, tnext, n, last, end, start, step, alphas) == fa(
        fa(fm(alphas.0, tq, p), fm(alphas.1, sq, p), p),
        fm(alphas.2, eq, p),
        p,
    ));
    assert(fm(alphas.0, tq, p) == (alphas.0 * top) % p);
    assert(fa(fm(alphas.0, tq, p), fm(alphas.1, sq, p), p) == c1x);
    lemma_small_mod(c1x as nat, p as nat);
    assert(fa(c1x, fm(alphas.2, eq, p), p) == (c1x + alphas.2 * eq) % p);
    // lengths
    lemma_quot(ss, 1, x, p);
    lemma_quot(se, last, x, p);
}

/// Stepping `2^(lb - ln)` points along the `2^lb`-point coset multiplies by
/// the root of the `2^ln`-point trace domain: point `(j + 2^(lb - ln)) mod
/// 2^lb` is `w` times point `j`.
pub proof fn lemma_lde_next_point<F: Field>(lb: nat, ln: nat, off: int, j: nat)
    requires
        ln <= lb <= F::two_adicity_spec(),
        j < pow2(lb),
    ensures
        coset_point(off, stage_root::<F>(lb), (((j + pow2((lb - ln) as nat)) as int) % (pow2(lb) as int)) as nat, F::p())
            == (stage_root::<F>(ln) * coset_point(off, stage_root::<F>(lb), j, F::p())) % F::p(),
{
    F::lemma_modulus();
    let p = F::p();
    let t = F::two_adicity_spec();
    let g = stage_root::<F>(lb);
    let w = stage_root::<F>(ln);
    let b = pow2((lb - ln) as nat);
    let big = pow2(lb);
    let prim = F::prim_root_val();
    // g^b = w
    vstd::arithmetic::power::lemma_pow_mod_noop(pow(prim, pow2((t - lb) as nat)), b, p);
    vstd::arithmetic::power::lemma_pow_multiplies(prim, pow2((t - lb) as nat), b);
    vstd::arithmetic::power2::lemma_pow2_adds((t - lb) as nat, (lb - ln) as nat);
    assert(((t - lb) as nat + (lb - ln) as nat) as nat == (t - ln) as nat);
    assert(pow(g, b) % p == w);
    // g^big = 1
    lemma_root_pow_n::<F>(false, lb);
    crate::fft::lemma_pow2_le((lb - ln) as nat, lb);
    let m = (((j + b) as int) % (big as int)) as nat;
    vstd::arithmetic::power2::lemma_pow2_pos(lb);
    if j + b < big {
        lemma_small_mod((j + b) as nat, big);
        assert(m == j + b);
    } else {
        lemma_fundamental_div_mod_converse((j + b) as int, big as int, 1, (j + b - big) as int);
        assert(m == j + b - big);
        vstd::arithmetic::power::lemma_pow_adds(g, m, big);
        assert(m + big == j + b);
        lemma_mul_mod_noop_right(pow(g, m), pow(g, big), p);
        lemma_mod_bound(pow(g, m), p);
        assert(pow(g, m) * 1 == pow(g, m));
        lemma_mod_twice(pow(g, m), p);
    }
    assert(pow(g, m) % p == pow(g, (j + b) as nat) % p);
    vstd::arithmetic::power::lemma_pow_adds(g, j, b);
    // off g^m = off g^j g^b = w (off g^j)
    lemma_mul_mod_noop_right(off, pow(g, m), p);
    lemma_mul_mod_noop_right(off, pow(g, (j + b) as nat), p);
    assert(off * (pow(g, j) * pow(g, b)) == (off * pow(g, j)) * pow(g, b)) by (nonlinear_arith);
    lemma_mul_mod_noop_right(off * pow(g, j), pow(g, b), p);
    lemma_mul_mod_noop_right(w, off * pow(g, j), p);
    assert((off * pow(g, j)) * w == w * (off * pow(g, j))) by (nonlinear_arith);
}

/// The composition values of an honest trace on the LDE coset are the
/// values there of `composition_poly`, which has at most `n` coefficients.
pub proof fn lemma_composition_layer<F: Field>(
    t: Seq<int>,
    lde: Seq<int>,
    comp: Seq<int>,
    ln: nat,
    lb: nat,
    off: int,
    start: int,
    step: int,
    alphas: (int, int, int),
)
    requires
        ln <= lb <= F::two_adicity_spec(),
        t.len() <= pow2(ln),
        forall|j: int|
            0 <= j < pow2(ln) ==> #[trigger] dft_at(t, stage_root::<F>(ln), j, F::p()) == progression_value::<F>(
                start,
                step,
                j,
            ),
        lde.len() == pow2(lb),
        comp.len() == pow2(lb),
        forall|j: int|
            0 <= j < pow2(lb) ==> #[trigger] lde[j] == poly_eval(t, coset_point(off, stage_root::<F>(lb), j as nat, F::p()), F::p()),
        forall|j: int|
            0 <= j < pow2(lb) ==> #[trigger] comp[j] == composition_spec::<F>(
                coset_point(off, stage_root::<F>(lb), j as nat, F::p()),
                lde[j],
                lde[(j + pow2((lb - ln) as nat)) % (pow2(lb) as int)],
                pow2(ln),
                last_trace_point::<F>(pow2(ln)),
                progression_value::<F>(start, step, pow2(ln) - 1),
                start,
                step,
                alphas,
            ),
        forall|j: int|
            0 <= j < pow2(lb) ==> #[trigger] composition_defined::<F>(
                coset_point(off, stage_root::<F>(lb), j as nat, F::p()),
                pow2(ln),
                last_trace_point::<F>(pow2(ln)),
            ),
    ensures
        composition_poly::<F>(t, ln, start, step, alphas).len() <= pow2(ln),
        layer_is_poly::<F>(comp, composition_poly::<F>(t, ln, start, step, alphas), off, pow2(lb), 0),
{
    F::lemma_prime_field();
    F::lemma_modulus();
    let p = F::p();
    let big = pow2(lb);
    let g = stage_root::<F>(lb);
    let w = stage_root::<F>(ln);
    let c = composition_poly::<F>(t, ln, start, step, alphas);
    crate::fft::lemma_log2_of(lb);
    assert(fri_generator::<F>(big) == g);
    vstd::arithmetic::power2::lemma_pow2_pos(lb);
    assert forall|j: int| 0 <= j < crate::layers::halvings(big, 0) implies #[trigger] comp[j] == poly_eval(
        c,
        crate::fold::domain_point_spec::<F>(off, fri_generator::<F>(big), j as nat, 0),
        p,
    ) by {
        let x = coset_point(off, g, j as nat, p);
        lemma_coset_point_is_domain_point::<F>(off, g, j as nat);
        lemma_lde_next_point::<F>(lb, ln, off, j as nat);
        let jn = (j + pow2((lb - ln) as nat)) % (big as int);
        lemma_mod_bound(j + pow2((lb - ln) as nat), big as int);
        assert(lde[jn] == poly_eval(t, coset_point(off, g, jn as nat, p), p));
        lemma_composition_is_polynomial::<F>(t, ln, start, step, alphas, x);
    }
    assert(composition_defined::<F>(coset_point(off, g, 0, p), pow2(ln), last_trace_point::<F>(pow2(ln))));
    lemma_composition_is_polynomial::<F>(t, ln, start, step, alphas, coset_point(off, g, 0, p));
}

/// Raising a power to a power multiplies the exponents, modulo `p`.
proof fn lemma_pow_mod_pow(b: int, e1: nat, e2: nat, p: int)
    requires
        p > 1,
    ensures
        pow_mod(pow_mod(b, e1, p), e2, p) == pow_mod(b, e1 * e2, p),
{
    vstd::arithmetic::power::lemma_pow_mod_noop(pow(b, e1), e2, p);
    vstd::arithmetic::power::lemma_pow_multiplies(b, e1, e2);
}

/// One to any power is one, modulo `p`.
proof fn lemma_one_pow_mod(e: nat, p: int)
    requires
        p > 1,
    ensures
        pow_mod(1, e, p) == 1,
{
    vstd::arithmetic::power::lemma1_pow(e);
    lemma_small_mod(1, p as nat);
}

/// A value below `p` differs from `c` below `p` exactly when their
/// difference is nonzero modulo `p`.
proof fn lemma_fs_nonzero(a: int, c: int, p: int)
    requires
        p > 1,
        0 <= a < p,
        0 <= c < p,
        a != c,
    ensures
        fs(a, c, p) != 0,
        0 < fs(a, c, p) < p,
{
    lemma_mod_bound(a - c, p);
    if a > c {
        lemma_small_mod((a - c) as nat, p as nat);
    } else {
        lemma_fundamental_div_mod_converse(a - c, p, -1, p + a - c);
    }
}

/// Every point of the coset `offset * G` of the `big_n`-point subgroup `G`
/// lies off the `n`-point trace domain, when `offset^big_n` is not one:
/// there every zerofier of the composition is nonzero, so the composition
/// is defined.
pub proof fn lemma_coset_outside_trace_domain<F: Field>(offset: int, n: nat, big_n: nat, j: nat)
    requires
        0 < offset < F::p(),
        crate::fft::is_pow2_len(n),
        crate::fft::is_pow2_len(big_n),
        n <= big_n,
        big_n <= pow2(F::two_adicity_spec()),
        pow_mod(offset, big_n, F::p()) != 1,
    ensures
        composition_defined::<F>(
            coset_point(offset, crate::lde::subgroup_generator::<F>(crate::fft::log2_of(big_n)), j, F::p()),
            n,
            last_trace_point::<F>(n),
        ),
{
    F::lemma_prime_field();
    F::lemma_modulus();
    let p = F::p();
    let t = F::two_adicity_spec();
    let kb = choose|e: nat| pow2(e) == big_n;
    let kn = choose|e: nat| pow2(e) == n;
    crate::fft::lemma_log2_of(kb);
    crate::fft::lemma_log2_of(kn);
    if kb > t {
        vstd::arithmetic::power2::lemma_pow2_strictly_increases(t, kb);
    }
    if kn > kb {
        vstd::arithmetic::power2::lemma_pow2_strictly_increases(kb, kn);
    }
    let g = stage_root::<F>(kb);
    let w = stage_root::<F>(kn);
    assert(crate::lde::subgroup_generator::<F>(crate::fft::log2_of(big_n)) == g);
    lemma_root_pow_n::<F>(false, kb);
    lemma_root_pow_n::<F>(false, kn);
    vstd::arithmetic::power2::lemma_pow2_adds(kn, (kb - kn) as nat);
    let b = pow2((kb - kn) as nat);
    assert(big_n == n * b);
    let x = coset_point(offset, g, j, p);
    lemma_mod_bound(offset * pow(g, j), p);
    let y = pow_mod(x, n, p);
    lemma_mod_bound(pow(x, n), p);
    // x^big_n is offset^big_n
    assert(pow_mod(x, big_n, p) == pow_mod(offset, big_n, p)) by {
        vstd::arithmetic::power::lemma_pow_mod_noop(offset * pow(g, j), big_n, p);
        vstd::arithmetic::power::lemma_pow_distributes(offset, pow(g, j), big_n);
        vstd::arithmetic::power::lemma_pow_multiplies(g, j, big_n);
        vstd::arithmetic::power::lemma_pow_multiplies(g, big_n, j);
        assert(j * big_n == big_n * j) by (nonlinear_arith);
        vstd::arithmetic::power::lemma_pow_mod_noop(pow(g, big_n), j, p);
        lemma_one_pow_mod(j, p);
        lemma_mul_mod_noop(pow(offset, big_n), pow(pow(g, j), big_n), p);
        lemma_mul_mod_noop_right(pow(offset, big_n) % p, pow(pow(g, j), big_n), p);
        lemma_mod_bound(pow(offset, big_n), p);
        lemma_small_mod((pow(offset, big_n) % p) as nat, p as nat);
    }
    // so x^n is not one
    if y == 1 {
        lemma_pow_mod_pow(x, n, b, p);
        lemma_one_pow_mod(b, p);
        assert(false);
    }
    // the last trace point satisfies last^n == 1
    let last = last_trace_point::<F>(n);
    assert(last == pow_mod(w, (n - 1) as nat, p));
    lemma_mod_bound(pow(w, (n - 1) as nat), p);
    if x == last {
        lemma_pow_mod_pow(w, (n - 1) as nat, n, p);
        lemma_pow_mod_pow(w, n, (n - 1) as nat, p);
        assert(((n - 1) as nat) * n == n * ((n - 1) as nat)) by (nonlinear_arith);
        lemma_one_pow_mod((n - 1) as nat, p);
        assert(false);
    }
    if x == 1 {
        lemma_one_pow_mod(n, p);
        assert(false);
    }
    lemma_fs_nonzero(x, last, p);
    lemma_fs_nonzero(x, 1, p);
    lemma_fs_nonzero(y, 1, p);
    let d2 = fs(x, last, p);
    let d1 = fs(y, 1, p);
    let inv = F::inv_val(d2);
    assert(fm(d2, inv, p) == 1);
    lemma_mod_bound(inv, p);
    lemma_mul_mod_noop_right(d2, inv, p);
    lemma_mul_mod_noop_right(d1, inv, p);
    if inv % p == 0 {
        lemma_small_mod(0, p as nat);
        assert((d2 * 0) % p == 0);
        assert(false);
    }
    assert((d1 * (inv % p)) % p != 0);
}

} // verus!
