//! Why an honest FRI prover is accepted: folding the evaluations of a
//! polynomial gives the evaluations of a polynomial of half the length on
//! the squared domain, and a polynomial with fewer coefficients than it
//! has roots among distinct points vanishes everywhere.

use vstd::prelude::*;
use vstd::arithmetic::div_mod::*;
use vstd::arithmetic::mul::*;
use crate::field::{Field, inverses_correct, fa, fs, fm};
use crate::poly::{coeff, poly_eval, trim, lemma_trim_coeff};
use crate::dft::{interleave, lemma_poly_eval_interleave, lemma_poly_eval_point_mod, lemma_mod_inner};
use crate::fold::{fold_spec, domain_point_spec};
use crate::field::pow_mod;
use crate::fft::{is_pow2_len, log2_of, lemma_log2_of, no_zero_divisors, stage_root, lemma_stage_root_family};
use crate::layers::{halvings, fri_generator, layers_fold, lemma_halvings_pow2, lemma_domain_point_nonzero, final_agrees,
    lemma_rounds_bound, prover_layers_ok, honest_opening, fri_accepts, lemma_honest_queries_accepted,
    FriCommitPhaseProof, FriRoundOpening};
use crate::merkle::MerkleTreeView;
use crate::poseidon::PoseidonView;
use crate::field::vals;
use vstd::arithmetic::power::pow;
use vstd::arithmetic::power2::pow2;

verus! {

/// The even-indexed coefficients `c_0, c_2, c_4, ...`.
pub open spec fn evens(c: Seq<int>) -> Seq<int> {
    Seq::new(((c.len() + 1) / 2) as nat, |k: int| coeff(c, 2 * k))
}

/// The odd-indexed coefficients `c_1, c_3, c_5, ...`.
pub open spec fn odds(c: Seq<int>) -> Seq<int> {
    Seq::new(((c.len() + 1) / 2) as nat, |k: int| coeff(c, 2 * k + 1))
}

/// The folded polynomial `even + beta * odd`: coefficient `k` is
/// `c_(2k) + beta * c_(2k+1)`, modulo `p`.
pub open spec fn fold_coeffs(c: Seq<int>, beta: int, p: int) -> Seq<int> {
    Seq::new(((c.len() + 1) / 2) as nat, |k: int| (coeff(c, 2 * k) + beta * coeff(c, 2 * k + 1)) % p)
}

/// An evaluation is a canonical value.
pub proof fn lemma_poly_eval_range(c: Seq<int>, x: int, p: int)
    requires
        p > 0,
    ensures
        0 <= poly_eval(c, x, p) < p,
{
    if c.len() > 0 {
        lemma_mod_bound(c[0] + x * poly_eval(c.drop_first(), x, p), p);
    }
}

/// Every polynomial splits into its even and odd coefficients:
/// `c(z) = even(z^2) + z * odd(z^2)`.
pub proof fn lemma_poly_eval_even_odd(c: Seq<int>, z: int, p: int)
    requires
        p > 0,
    ensures
        poly_eval(c, z, p) == (poly_eval(evens(c), z * z, p) + z * poly_eval(odds(c), z * z, p)) % p,
{
    let x = interleave(evens(c), odds(c));
    assert forall|j: int| #[trigger] coeff(x, j) == coeff(c, j) by {
        if 0 <= j < x.len() {
            if j % 2 == 0 {
                assert(2 * (j / 2) == j);
            } else {
                assert(2 * (j / 2) + 1 == j);
            }
        }
    }
    crate::poly_laws::lemma_poly_eval_same_coeffs(x, c, z, p);
    lemma_poly_eval_interleave(evens(c), odds(c), z, p);
}

/// The folded polynomial evaluates to `even + beta * odd`.
pub proof fn lemma_fold_coeffs_eval(c: Seq<int>, beta: int, y: int, p: int)
    requires
        p > 0,
    ensures
        poly_eval(fold_coeffs(c, beta, p), y, p) == (poly_eval(evens(c), y, p) + beta * poly_eval(odds(c), y, p))
            % p,
{
    let o = odds(c);
    let so = Seq::new(o.len(), |k: int| (o[k] * beta) % p);
    assert forall|k: int| #[trigger] coeff(so, k) == (coeff(o, k) * beta) % p by {
        if !(0 <= k < o.len()) {
            assert(0 * beta == 0);
            lemma_small_mod(0, p as nat);
        }
    }
    crate::poly_laws::lemma_poly_eval_scale(so, o, beta, y, p);
    assert forall|k: int| #[trigger] coeff(fold_coeffs(c, beta, p), k) == (coeff(evens(c), k) + coeff(so, k)) % p by {
        if 0 <= k < o.len() {
            lemma_mod_inner(coeff(c, 2 * k), 1, coeff(c, 2 * k + 1) * beta, p);
            assert(coeff(c, 2 * k + 1) * beta == beta * coeff(c, 2 * k + 1)) by (nonlinear_arith);
        } else {
            lemma_small_mod(0, p as nat);
        }
    }
    crate::poly_laws::lemma_poly_eval_add(fold_coeffs(c, beta, p), evens(c), so, y, p);
    let e = poly_eval(evens(c), y, p);
    let ov = poly_eval(o, y, p);
    lemma_mod_inner(e, 1, ov * beta, p);
    assert(ov * beta == beta * ov) by (nonlinear_arith);
}

/// Folding the values of `c` at `x` and `-x` gives the value of the folded
/// polynomial at `x^2`.
pub proof fn lemma_fold_exact<F: Field>(c: Seq<int>, x: int, beta: int)
    requires
        0 < x < F::p(),
    ensures
        fold_spec::<F>(poly_eval(c, x, F::p()), poly_eval(c, F::p() - x, F::p()), x, beta) == poly_eval(
            fold_coeffs(c, beta, F::p()),
            x * x,
            F::p(),
        ),
{
    F::lemma_prime_field();
    F::lemma_modulus();
    let p = F::p();
    let nx = p - x;
    let e = poly_eval(evens(c), x * x, p);
    let o = poly_eval(odds(c), x * x, p);
    lemma_poly_eval_range(evens(c), x * x, p);
    lemma_poly_eval_range(odds(c), x * x, p);
    // the values at x and -x
    lemma_poly_eval_even_odd(c, x, p);
    lemma_poly_eval_even_odd(c, nx, p);
    assert(nx * nx == x * x + p * (p - 2 * x)) by (nonlinear_arith)
        requires nx == p - x;
    lemma_mod_multiples_vanish(p - 2 * x, x * x, p);
    lemma_poly_eval_point_mod(evens(c), nx * nx, p);
    lemma_poly_eval_point_mod(evens(c), x * x, p);
    lemma_poly_eval_point_mod(odds(c), nx * nx, p);
    lemma_poly_eval_point_mod(odds(c), x * x, p);
    let a = poly_eval(c, x, p);
    let b = poly_eval(c, nx, p);
    assert(a == (e + x * o) % p);
    assert(b == (e + nx * o) % p);
    // a + b = 2 e and a - b = 2 x o, modulo p
    lemma_add_mod_noop(e + x * o, e + nx * o, p);
    assert((e + x * o) + (e + nx * o) == p * o + 2 * e) by (nonlinear_arith)
        requires nx == p - x;
    lemma_mod_multiples_vanish(o, 2 * e, p);
    assert(fa(a, b, p) == (2 * e) % p);
    lemma_sub_mod_noop(e + x * o, e + nx * o, p);
    assert((e + x * o) - (e + nx * o) == p * (0 - o) + 2 * x * o) by (nonlinear_arith)
        requires nx == p - x;
    lemma_mod_multiples_vanish(0 - o, 2 * x * o, p);
    assert(fs(a, b, p) == (2 * x * o) % p);
    // dividing by 2 and by x
    let i2 = F::inv_val(2);
    let ix = F::inv_val(x);
    lemma_small_mod(2, p as nat);
    assert(fm(2, i2, p) == 1);
    assert(fm(x, ix, p) == 1);
    let even = fm(fa(a, b, p), i2, p);
    lemma_mul_mod_noop_left(2 * e, i2, p);
    assert((2 * e) * i2 == e * (2 * i2)) by (nonlinear_arith);
    lemma_mul_mod_noop_right(e, 2 * i2, p);
    lemma_small_mod(e as nat, p as nat);
    assert(even == e);
    let half = fm(fs(a, b, p), i2, p);
    lemma_mul_mod_noop_left(2 * x * o, i2, p);
    let odd = fm(half, ix, p);
    lemma_mul_mod_noop_left((2 * x * o) * i2, ix, p);
    assert(((2 * x * o) * i2) * ix == o * ((2 * i2) * (x * ix))) by (nonlinear_arith);
    lemma_mul_mod_noop_right(o, (2 * i2) * (x * ix), p);
    lemma_mul_mod_noop(2 * i2, x * ix, p);
    lemma_small_mod(1, p as nat);
    assert(((2 * i2) * (x * ix)) % p == 1) by {
        assert(((2 * i2) % p) * ((x * ix) % p) == 1);
    }
    assert(half == ((2 * x * o) * i2) % p);
    assert(odd == (((2 * x * o) * i2) * ix) % p);
    assert(odd == (o * ((2 * i2) * (x * ix))) % p);
    assert(odd == (o * 1) % p);
    lemma_small_mod(o as nat, p as nat);
    assert(odd == o);
    // even + beta * odd
    reveal(fold_spec);
    lemma_fold_coeffs_eval(c, beta, x * x, p);
    lemma_mod_inner(e, 1, beta * o, p);
}

/// The next folded domain is the square of this one.
pub proof fn lemma_domain_point_square<F: Field>(offset: int, g: int, i: nat, j: nat)
    ensures
        domain_point_spec::<F>(offset, g, i, j + 1) == (domain_point_spec::<F>(offset, g, i, j)
            * domain_point_spec::<F>(offset, g, i, j)) % F::p(),
{
    F::lemma_modulus();
    reveal(domain_point_spec);
    crate::field::lemma_square_pow2_mod(fm(offset, pow_mod(g, i, F::p()), F::p()), j, F::p());
}

/// `(offset * g^i)^e`, modulo `p`, whatever representative of `g^i` is used.
proof fn lemma_domain_point_unreduced<F: Field>(offset: int, g: int, i: nat, j: nat)
    ensures
        domain_point_spec::<F>(offset, g, i, j) == pow(offset * pow(g, i), pow2(j)) % F::p(),
{
    F::lemma_modulus();
    let p = F::p();
    reveal(domain_point_spec);
    let x = pow(g, i);
    vstd::arithmetic::power::lemma_pow_mod_noop(offset * (x % p), pow2(j), p);
    lemma_mul_mod_noop_right(offset, x, p);
    vstd::arithmetic::power::lemma_pow_mod_noop(offset * x, pow2(j), p);
}

/// Half a folded domain further on lies the negated point:
/// point `i + h` of round `j` is `-x` for point `i`, `x`.
pub proof fn lemma_domain_point_negated<F: Field>(offset: int, n: nat, i: nat, j: nat)
    requires
        0 < offset < F::p(),
        is_pow2_len(n),
        n <= pow2(F::two_adicity_spec()),
        j + 1 <= log2_of(n),
    ensures
        domain_point_spec::<F>(offset, fri_generator::<F>(n), i + halvings(n, j + 1), j) == F::p()
            - domain_point_spec::<F>(offset, fri_generator::<F>(n), i, j),
        0 < domain_point_spec::<F>(offset, fri_generator::<F>(n), i, j) < F::p(),
{
    F::lemma_prime_field();
    F::lemma_modulus();
    let p = F::p();
    let l = log2_of(n);
    let kk = choose|kk: nat| pow2(kk) == n;
    lemma_log2_of(kk);
    if l > F::two_adicity_spec() {
        vstd::arithmetic::power2::lemma_pow2_strictly_increases(F::two_adicity_spec(), l);
    }
    let g = fri_generator::<F>(n);
    assert(g == stage_root::<F>(l));
    let h = halvings(n, j + 1);
    lemma_halvings_pow2(l, j + 1);
    assert(h == pow2((l - j - 1) as nat));
    let e = pow2(j);
    vstd::arithmetic::power2::lemma_pow2_adds((l - j - 1) as nat, j);
    assert(((l - j - 1) as nat + j) as nat == (l - 1) as nat);
    assert(h * e == pow2((l - 1) as nat));
    lemma_stage_root_family::<F>(l);
    // point i + h = (offset g^i)^e * g^(h e)
    let a = offset * pow(g, i);
    lemma_domain_point_unreduced::<F>(offset, g, i, j);
    lemma_domain_point_unreduced::<F>(offset, g, i + h, j);
    vstd::arithmetic::power::lemma_pow_adds(g, i, h);
    assert(offset * pow(g, i + h) == a * pow(g, h)) by (nonlinear_arith)
        requires pow(g, i + h) == pow(g, i) * pow(g, h), a == offset * pow(g, i);
    vstd::arithmetic::power::lemma_pow_distributes(a, pow(g, h), e);
    vstd::arithmetic::power::lemma_pow_multiplies(g, h, e);
    let x = domain_point_spec::<F>(offset, g, i, j);
    lemma_mul_mod_noop(pow(a, e), pow(g, h * e), p);
    assert(pow(g, h * e) % p == p - 1);
    lemma_small_mod((p - 1) as nat, p as nat);
    assert(domain_point_spec::<F>(offset, g, i + h, j) == (x * (p - 1)) % p);
    lemma_domain_point_nonzero::<F>(offset, n, i, j);
    lemma_mod_bound(pow(a, e), p);
    assert(x * (p - 1) == p * (x - 1) + (p - x)) by (nonlinear_arith);
    lemma_mod_multiples_vanish(x - 1, p - x, p);
    lemma_small_mod((p - x) as nat, p as nat);
}

/// Layer `layer` of round `j` holds the values of `c` on that round's domain.
pub open spec fn layer_is_poly<F: Field>(layer: Seq<int>, c: Seq<int>, offset: int, n: nat, j: nat) -> bool {
    forall|i: int|
        0 <= i < halvings(n, j) ==> #[trigger] layer[i] == poly_eval(
            c,
            domain_point_spec::<F>(offset, fri_generator::<F>(n), i as nat, j),
            F::p(),
        )
}

/// Folding a layer that holds the values of `c` gives a layer that holds the
/// values of the folded polynomial.
pub proof fn lemma_fold_layer_poly<F: Field>(
    layers: Seq<Seq<int>>,
    betas: Seq<int>,
    offset: int,
    n: nat,
    j: nat,
    c: Seq<int>,
)
    requires
        0 < offset < F::p(),
        is_pow2_len(n),
        n <= pow2(F::two_adicity_spec()),
        j + 1 <= log2_of(n),
        j + 1 < layers.len(),
        layers_fold::<F>(layers, betas, offset, n),
        layer_is_poly::<F>(layers[j as int], c, offset, n, j),
    ensures
        layer_is_poly::<F>(layers[j + 1 as int], fold_coeffs(c, betas[j as int], F::p()), offset, n, j + 1),
{
    F::lemma_prime_field();
    F::lemma_modulus();
    let p = F::p();
    let g = fri_generator::<F>(n);
    let h = halvings(n, j + 1);
    let l = log2_of(n);
    let kk = choose|kk: nat| pow2(kk) == n;
    lemma_log2_of(kk);
    lemma_halvings_pow2(l, j);
    lemma_halvings_pow2(l, j + 1);
    vstd::arithmetic::power2::lemma_pow2_unfold((l - j) as nat);
    assert(halvings(n, j) == 2 * h);
    let fc = fold_coeffs(c, betas[j as int], p);
    assert forall|i: int| 0 <= i < h implies #[trigger] layers[j + 1 as int][i] == poly_eval(
        fc,
        domain_point_spec::<F>(offset, g, i as nat, j + 1),
        p,
    ) by {
        let x = domain_point_spec::<F>(offset, g, i as nat, j);
        lemma_domain_point_negated::<F>(offset, n, i as nat, j);
        assert(((i + h) as nat) == i as nat + h);
        assert(layers[j as int][i] == poly_eval(c, x, p));
        assert(layers[j as int][i + h] == poly_eval(c, p - x, p));
        assert(layers[j + 1 as int][i] == fold_spec::<F>(layers[j as int][i], layers[j as int][i + h], x, betas[j as int]));
        lemma_fold_exact::<F>(c, x, betas[j as int]);
        lemma_domain_point_square::<F>(offset, g, i as nat, j);
        lemma_poly_eval_point_mod(fc, x * x, p);
    }
}

/// The quotient of `q` by `x - a` in synthetic division: with `q = q_0 + x t`,
/// it is `t + a * quot(t)`.
pub open spec fn quot(q: Seq<int>, a: int, p: int) -> Seq<int>
    decreases q.len(),
{
    if q.len() <= 1 {
        Seq::empty()
    } else {
        let t = q.drop_first();
        let qt = quot(t, a, p);
        Seq::new(t.len(), |k: int| (t[k] + a * coeff(qt, k)) % p)
    }
}

/// Synthetic division: `q(x) = (x - a) * quot(q)(x) + q(a)`, and the
/// quotient is one coefficient shorter.
pub proof fn lemma_quot(q: Seq<int>, a: int, x: int, p: int)
    requires
        p > 0,
    ensures
        q.len() >= 1 ==> quot(q, a, p).len() == q.len() - 1,
        poly_eval(q, x, p) == ((x - a) * poly_eval(quot(q, a, p), x, p) + poly_eval(q, a, p)) % p,
    decreases q.len(),
{
    let big_q = quot(q, a, p);
    if q.len() <= 1 {
        assert(poly_eval(big_q, x, p) == 0);
        assert((x - a) * 0 == 0);
        if q.len() == 1 {
            assert(q.drop_first().len() == 0);
            assert(x * 0 == 0 && a * 0 == 0);
            lemma_mod_twice(q[0], p);
        } else {
            lemma_small_mod(0, p as nat);
        }
    } else {
        let t = q.drop_first();
        let qt = quot(t, a, p);
        lemma_quot(t, a, x, p);
        lemma_quot(t, a, a, p);
        let tx = poly_eval(t, x, p);
        let ta = poly_eval(t, a, p);
        let tqx = poly_eval(qt, x, p);
        // Q(x) = t(x) + a * T(x)
        let sq = Seq::new(qt.len(), |k: int| (qt[k] * a) % p);
        assert forall|k: int| #[trigger] coeff(sq, k) == (coeff(qt, k) * a) % p by {
            if !(0 <= k < qt.len()) {
                assert(0 * a == 0);
                lemma_small_mod(0, p as nat);
            }
        }
        crate::poly_laws::lemma_poly_eval_scale(sq, qt, a, x, p);
        assert forall|k: int| #[trigger] coeff(big_q, k) == (coeff(t, k) + coeff(sq, k)) % p by {
            if 0 <= k < t.len() {
                lemma_mod_inner(t[k], 1, coeff(qt, k) * a, p);
                assert(coeff(qt, k) * a == a * coeff(qt, k)) by (nonlinear_arith);
            } else {
                lemma_small_mod(0, p as nat);
            }
        }
        crate::poly_laws::lemma_poly_eval_add(big_q, t, sq, x, p);
        let qx = poly_eval(big_q, x, p);
        lemma_mod_inner(tx, 1, tqx * a, p);
        assert(qx == (tx + a * tqx) % p) by {
            assert(tqx * a == a * tqx) by (nonlinear_arith);
        }
        // t(x) = (x - a) T(x) + t(a)
        let w = (x - a) * tqx + ta;
        assert(tx == w % p);
        // left: q(x) = q0 + x t(x) = q0 + x w
        let lhs = q[0] + x * w;
        lemma_mod_inner(q[0], x, w, p);
        assert(poly_eval(q, x, p) == lhs % p);
        // right: (x - a) Q(x) + q(a), with Q(x) = t(x) + a T(x), q(a) = q0 + a t(a)
        let bb = q[0] + a * ta;
        let v = tx + a * tqx;
        let qa = poly_eval(q, a, p);
        assert(qa == bb % p);
        lemma_mod_inner((x - a) * qx, 1, bb, p);
        lemma_mod_inner(bb, x - a, v, p);
        assert(((x - a) * qx + qa) % p == (bb + (x - a) * v) % p);
        assert((x - a) * v == (x - a) * a * tqx + (x - a) * tx) by (nonlinear_arith)
            requires v == tx + a * tqx;
        lemma_mod_inner(bb + (x - a) * a * tqx, x - a, w, p);
        assert(bb + (x - a) * a * tqx + (x - a) * w == lhs) by (nonlinear_arith)
            requires bb == q[0] + a * ta, w == (x - a) * tqx + ta, lhs == q[0] + x * w;
    }
}

/// In a field without zero divisors, a polynomial with at most `m`
/// coefficients that vanishes at `m` distinct points vanishes everywhere.
pub proof fn lemma_vanishing<F: Field>(q: Seq<int>, pts: Seq<int>, x: int)
    requires
        q.len() <= pts.len(),
        forall|i: int| 0 <= i < pts.len() ==> 0 <= #[trigger] pts[i] < F::p(),
        forall|i: int, j: int| 0 <= i < j < pts.len() ==> #[trigger] pts[i] != #[trigger] pts[j],
        forall|i: int| 0 <= i < pts.len() ==> #[trigger] poly_eval(q, pts[i], F::p()) == 0,
    ensures
        poly_eval(q, x, F::p()) == 0,
    decreases pts.len(),
{
    F::lemma_prime_field();
    F::lemma_modulus();
    let p = F::p();
    if q.len() == 0 {
    } else {
        let a = pts[0];
        let big_q = quot(q, a, p);
        let rest = pts.drop_first();
        lemma_quot(q, a, x, p);
        assert(poly_eval(q, a, p) == 0);
        assert forall|i: int| 0 <= i < rest.len() implies #[trigger] poly_eval(big_q, rest[i], p) == 0 by {
            let y = rest[i];
            assert(y == pts[i + 1]);
            lemma_quot(q, a, y, p);
            let v = poly_eval(big_q, y, p);
            lemma_poly_eval_range(big_q, y, p);
            crate::field::lemma_nonzero_diff::<F>(y, a);
            lemma_mod_bound(y - a, p);
            lemma_mul_mod_noop_left(y - a, v, p);
            lemma_small_mod(0, p as nat);
            assert(((y - a) * v + 0) % p == 0);
            if v != 0 {
                assert((((y - a) % p) * v) % p != 0);
            }
        }
        assert forall|i: int, j: int| 0 <= i < j < rest.len() implies #[trigger] rest[i] != #[trigger] rest[j] by {
            assert(rest[i] == pts[i + 1] && rest[j] == pts[j + 1]);
        }
        lemma_vanishing::<F>(big_q, rest, x);
        assert((x - a) * 0 == 0);
        lemma_small_mod(0, p as nat);
    }
}

/// Two polynomials with at most `m` coefficients that agree at `m`
/// distinct points agree everywhere.
pub proof fn lemma_agree_everywhere<F: Field>(f: Seq<int>, g: Seq<int>, pts: Seq<int>, x: int)
    requires
        f.len() <= pts.len(),
        g.len() <= pts.len(),
        forall|i: int| 0 <= i < pts.len() ==> 0 <= #[trigger] pts[i] < F::p(),
        forall|i: int, j: int| 0 <= i < j < pts.len() ==> #[trigger] pts[i] != #[trigger] pts[j],
        forall|i: int| 0 <= i < pts.len() ==> #[trigger] poly_eval(f, pts[i], F::p()) == poly_eval(g, pts[i], F::p()),
    ensures
        poly_eval(f, x, F::p()) == poly_eval(g, x, F::p()),
{
    F::lemma_prime_field();
    F::lemma_modulus();
    let p = F::p();
    let m = if f.len() > g.len() { f.len() } else { g.len() };
    // d = f + (p - 1) g
    let ng = Seq::new(g.len(), |k: int| (g[k] * (p - 1)) % p);
    let d = Seq::new(m, |k: int| (coeff(f, k) + coeff(ng, k)) % p);
    assert forall|k: int| #[trigger] coeff(ng, k) == (coeff(g, k) * (p - 1)) % p by {
        if !(0 <= k < g.len()) {
            assert(0 * (p - 1) == 0);
            lemma_small_mod(0, p as nat);
        }
    }
    assert forall|k: int| #[trigger] coeff(d, k) == (coeff(f, k) + coeff(ng, k)) % p by {
        if !(0 <= k < m) {
            lemma_small_mod(0, p as nat);
        }
    }
    assert forall|y: int| #[trigger] poly_eval(d, y, p) == (poly_eval(f, y, p) + (poly_eval(g, y, p) * (p - 1)) % p)
        % p by {
        crate::poly_laws::lemma_poly_eval_scale(ng, g, p - 1, y, p);
        crate::poly_laws::lemma_poly_eval_add(d, f, ng, y, p);
    }
    assert forall|i: int| 0 <= i < pts.len() implies #[trigger] poly_eval(d, pts[i], p) == 0 by {
        let fy = poly_eval(f, pts[i], p);
        lemma_poly_eval_range(f, pts[i], p);
        lemma_mod_inner(fy, 1, fy * (p - 1), p);
        assert(fy + fy * (p - 1) == p * fy) by (nonlinear_arith);
        lemma_mod_multiples_vanish(fy, 0, p);
        lemma_small_mod(0, p as nat);
    }
    lemma_vanishing::<F>(d, pts, x);
    let fx = poly_eval(f, x, p);
    let gx = poly_eval(g, x, p);
    lemma_poly_eval_range(f, x, p);
    lemma_poly_eval_range(g, x, p);
    lemma_mod_inner(fx, 1, gx * (p - 1), p);
    assert(fx + gx * (p - 1) == p * gx + (fx - gx)) by (nonlinear_arith);
    lemma_mod_multiples_vanish(gx, fx - gx, p);
    if fx > gx {
        lemma_small_mod((fx - gx) as nat, p as nat);
    } else if fx < gx {
        lemma_fundamental_div_mod_converse(fx - gx, p, -1, fx - gx + p);
    }
}

/// The polynomial after the first `j` folds with the challenges `betas`.
pub open spec fn folded_poly(c: Seq<int>, betas: Seq<int>, j: nat, p: int) -> Seq<int>
    decreases j,
{
    if j == 0 {
        c
    } else {
        fold_coeffs(folded_poly(c, betas, (j - 1) as nat, p), betas[j - 1], p)
    }
}

/// Each fold halves the number of coefficients (rounding up).
pub proof fn lemma_folded_len(c: Seq<int>, betas: Seq<int>, j: nat, k: nat, p: int)
    requires
        c.len() <= k * pow2(j),
    ensures
        folded_poly(c, betas, j, p).len() <= k,
    decreases j,
{
    if j == 0 {
        vstd::arithmetic::power2::lemma2_to64();
        assert(k * 1 == k);
    } else {
        vstd::arithmetic::power2::lemma_pow2_unfold(j);
        assert(k * pow2(j) == (2 * k) * pow2((j - 1) as nat)) by (nonlinear_arith)
            requires pow2(j) == 2 * pow2((j - 1) as nat);
        lemma_folded_len(c, betas, (j - 1) as nat, 2 * k, p);
    }
}

/// After `j` folds the layer holds the values of the `j`-times folded
/// polynomial.
pub proof fn lemma_folded_layers<F: Field>(
    layers: Seq<Seq<int>>,
    betas: Seq<int>,
    offset: int,
    n: nat,
    c: Seq<int>,
    j: nat,
)
    requires
        0 < offset < F::p(),
        is_pow2_len(n),
        n <= pow2(F::two_adicity_spec()),
        j <= log2_of(n),
        j < layers.len(),
        layers_fold::<F>(layers, betas, offset, n),
        layer_is_poly::<F>(layers[0], c, offset, n, 0),
    ensures
        layer_is_poly::<F>(layers[j as int], folded_poly(c, betas, j, F::p()), offset, n, j),
    decreases j,
{
    F::lemma_prime_field();
    if j > 0 {
        lemma_folded_layers::<F>(layers, betas, offset, n, c, (j - 1) as nat);
        lemma_fold_layer_poly::<F>(layers, betas, offset, n, (j - 1) as nat, folded_poly(c, betas, (j - 1) as nat, F::p()));
    }
}

/// Folded domain points are canonical values.
pub proof fn lemma_domain_point_range<F: Field>(offset: int, g: int, i: nat, j: nat)
    ensures
        0 <= domain_point_spec::<F>(offset, g, i, j) < F::p(),
{
    F::lemma_modulus();
    reveal(domain_point_spec);
    lemma_mod_bound(pow(fm(offset, pow_mod(g, i, F::p()), F::p()), pow2(j)), F::p());
}

/// FRI completeness: when the first layer holds the values of a
/// polynomial with at most `k * 2^r` coefficients on its domain (`r` the
/// number of folds), a polynomial with at most `k` coefficients that
/// matches the last layer at its first `k` points (pairwise distinct)
/// matches it at every point, so the final check of every query passes.
pub proof fn lemma_fri_complete<F: Field>(
    layers: Seq<Seq<int>>,
    betas: Seq<int>,
    offset: int,
    n: nat,
    c: Seq<int>,
    final_coeffs: Seq<int>,
    k: nat,
    idx: nat,
)
    requires
        0 < offset < F::p(),
        is_pow2_len(n),
        n <= pow2(F::two_adicity_spec()),
        layers.len() == betas.len() + 1,
        betas.len() <= log2_of(n),
        layers_fold::<F>(layers, betas, offset, n),
        layer_is_poly::<F>(layers[0], c, offset, n, 0),
        1 <= k <= halvings(n, betas.len()),
        c.len() <= k * pow2(betas.len()),
        final_coeffs.len() <= k,
        forall|i: int, j: int|
            0 <= i < j < k ==> #[trigger] domain_point_spec::<F>(offset, fri_generator::<F>(n), i as nat, betas.len())
                != #[trigger] domain_point_spec::<F>(offset, fri_generator::<F>(n), j as nat, betas.len()),
        forall|i: int|
            0 <= i < k ==> #[trigger] poly_eval(
                final_coeffs,
                domain_point_spec::<F>(offset, fri_generator::<F>(n), i as nat, betas.len()),
                F::p(),
            ) == layers[betas.len() as int][i],
    ensures
        final_agrees::<F>(final_coeffs, layers[betas.len() as int], offset, n, betas.len(), idx),
{
    F::lemma_prime_field();
    F::lemma_modulus();
    let p = F::p();
    let r = betas.len();
    let g = fri_generator::<F>(n);
    let h = halvings(n, r);
    let fr = folded_poly(c, betas, r, p);
    lemma_folded_layers::<F>(layers, betas, offset, n, c, r);
    lemma_folded_len(c, betas, r, k, p);
    let pts = Seq::new(k, |i: int| domain_point_spec::<F>(offset, g, i as nat, r));
    assert forall|i: int| 0 <= i < pts.len() implies 0 <= #[trigger] pts[i] < p by {
        lemma_domain_point_range::<F>(offset, g, i as nat, r);
    }
    assert forall|i: int, j: int| 0 <= i < j < pts.len() implies #[trigger] pts[i] != #[trigger] pts[j] by {
        assert(pts[i] == domain_point_spec::<F>(offset, g, i as nat, r));
        assert(pts[j] == domain_point_spec::<F>(offset, g, j as nat, r));
    }
    assert forall|i: int| 0 <= i < pts.len() implies #[trigger] poly_eval(final_coeffs, pts[i], p) == poly_eval(
        fr,
        pts[i],
        p,
    ) by {
        assert(layers[r as int][i] == poly_eval(fr, domain_point_spec::<F>(offset, g, i as nat, r), p));
    }
    let ni = idx % h;
    lemma_mod_bound(idx as int, h as int);
    let x = domain_point_spec::<F>(offset, g, ni, r);
    lemma_agree_everywhere::<F>(final_coeffs, fr, pts, x);
    assert forall|t: int| #[trigger] coeff(trim(final_coeffs), t) == coeff(final_coeffs, t) by {
        lemma_trim_coeff(final_coeffs, t);
    }
    crate::poly_laws::lemma_poly_eval_same_coeffs(trim(final_coeffs), final_coeffs, x, p);
    assert(layers[r as int][ni as int] == poly_eval(fr, x, p));
}

/// Completeness of FRI: when the first layer holds the values on its
/// domain of a polynomial with at most `k * 2^r` coefficients (`r` the
/// number of folds), the honest prover's commitments, final polynomial
/// (interpolated through the first `k` points of the last layer, with `k`
/// coefficients) and openings are accepted at every query.
pub proof fn lemma_honest_fri_accepted<F: Field>(
    h: PoseidonView,
    layers: Seq<Seq<int>>,
    trees: Seq<MerkleTreeView>,
    betas: Seq<int>,
    proof: FriCommitPhaseProof<F>,
    offset: int,
    n: nat,
    final_size: nat,
    k: nat,
    indices: Seq<usize>,
    openings: Seq<Vec<FriRoundOpening<F>>>,
    c: Seq<int>,
)
    requires
        0 < offset < F::p(),
        is_pow2_len(n),
        n <= pow2(F::two_adicity_spec()),
        prover_layers_ok::<F>(layers, trees, h, n),
        layers_fold::<F>(layers, betas, offset, n),
        trees.len() == betas.len(),
        layers.len() == trees.len() + 1,
        proof.layer_roots@.len() == trees.len(),
        forall|t: int| 0 <= t < trees.len() ==> #[trigger] vals(proof.layer_roots@)[t] == trees[t].layers.last()[0],
        halvings(n, trees.len() as nat) == final_size,
        proof.final_poly_coeffs@.len() == k,
        1 <= k <= final_size,
        openings.len() == indices.len(),
        forall|q: int| 0 <= q < openings.len() ==> (#[trigger] openings[q])@.len() == trees.len(),
        forall|q: int, j: int|
            0 <= q < openings.len() && 0 <= j < trees.len() ==> #[trigger] honest_opening::<F>(
                layers,
                trees,
                n,
                indices[q] as nat,
                j,
                openings[q]@[j],
            ),
        layer_is_poly::<F>(layers[0], c, offset, n, 0),
        c.len() <= k * pow2(trees.len() as nat),
        forall|i: int, j: int|
            0 <= i < j < k ==> #[trigger] domain_point_spec::<F>(offset, fri_generator::<F>(n), i as nat, betas.len())
                != #[trigger] domain_point_spec::<F>(offset, fri_generator::<F>(n), j as nat, betas.len()),
        forall|i: int|
            0 <= i < k ==> #[trigger] poly_eval(
                vals(proof.final_poly_coeffs@),
                domain_point_spec::<F>(offset, fri_generator::<F>(n), i as nat, betas.len()),
                F::p(),
            ) == layers[betas.len() as int][i],
    ensures
        fri_accepts::<F>(h, proof, betas, offset, n, final_size, k, indices, openings),
{
    F::lemma_prime_field();
    let kk = choose|kk: nat| pow2(kk) == n;
    lemma_log2_of(kk);
    lemma_rounds_bound(n, kk, trees.len() as nat);
    lemma_honest_queries_accepted::<F>(h, layers, trees, betas, proof, offset, n, final_size, k, indices, openings);
    assert forall|q: int| 0 <= q < openings.len() implies #[trigger] final_agrees::<F>(
        vals(proof.final_poly_coeffs@),
        layers[trees.len() as int],
        offset,
        n,
        trees.len() as nat,
        indices[q] as nat,
    ) by {
        lemma_fri_complete::<F>(layers, betas, offset, n, c, vals(proof.final_poly_coeffs@), k, indices[q] as nat);
    }
}

} // verus!
