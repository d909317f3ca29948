//! Interpolation: from point values back to coefficients.
//!
//! Lagrange interpolation works for arbitrary distinct x-coordinates;
//! FFT interpolation needs the x-coordinates to be the power-of-two
//! roots-of-unity domain.

use vstd::prelude::*;
use vstd::arithmetic::power2::pow2;
use crate::field::{Field, vals, fm, fs, inverses_correct};
use crate::fft::{ifft, is_pow2_len, no_zero_divisors, pass_root, log2_of, stage_root};
use crate::dft::dft_at;
use crate::poly::{Polynomial, is_normalized, trim, copy_vec, coeff, lemma_normalized_len_bound, poly_eval};

verus! {

/// The x-coordinates of the points are pairwise distinct.
pub open spec fn distinct_xs<F: Field>(points: Seq<(F, F)>) -> bool {
    forall|i: int, j: int|
        0 <= i < j < points.len() ==> #[trigger] points[i].0.val() != #[trigger] points[j].0.val()
}

/// `prod_{j < m, j != i} (z - x_j)` in the field, over the x-coordinates
/// of the points.
pub open spec fn lagrange_product<F: Field>(points: Seq<(F, F)>, i: int, m: nat, z: int) -> int
    decreases m,
{
    if m == 0 {
        1
    } else if m - 1 == i {
        lagrange_product(points, i, (m - 1) as nat, z)
    } else {
        fm(lagrange_product(points, i, (m - 1) as nat, z), fs(z, points[m - 1].0.val(), F::p()), F::p())
    }
}

/// The product vanishes at every other x-coordinate it covers.
proof fn lemma_lagrange_product_zero<F: Field>(points: Seq<(F, F)>, i: int, m: nat, k: int)
    requires
        0 <= k < m,
        k != i,
        k < points.len(),
        m <= points.len(),
    ensures
        lagrange_product(points, i, m, points[k].0.val()) == 0,
    decreases m,
{
    F::lemma_modulus();
    let p = F::p();
    let z = points[k].0.val();
    vstd::arithmetic::div_mod::lemma_small_mod(0, p as nat);
    if m - 1 == k {
        assert(fs(z, z, p) == 0);
        assert(lagrange_product(points, i, (m - 1) as nat, z) * 0 == 0);
    } else {
        lemma_lagrange_product_zero(points, i, (m - 1) as nat, k);
        if m - 1 != i {
            assert(0 * fs(z, points[m - 1].0.val(), p) == 0);
        }
    }
}

/// A constant polynomial takes its value everywhere.
proof fn lemma_eval_const(c: int, z: int, p: int)
    requires
        0 <= c < p,
    ensures
        poly_eval(seq![c], z, p) == c,
{
    let s = seq![c];
    assert(s.drop_first() =~= Seq::<int>::empty());
    assert(poly_eval(s.drop_first(), z, p) == 0);
    assert(z * 0 == 0);
    vstd::arithmetic::div_mod::lemma_small_mod(c as nat, p as nat);
}

/// The value at `z` of the degree-one polynomial `z - x`.
pub proof fn lemma_eval_linear_factor(c0: int, z: int, x: int, p: int)
    requires
        p > 1,
        c0 == (0 - x) % p,
    ensures
        poly_eval(seq![c0, 1int], z, p) == fs(z, x, p),
{
    let s = seq![c0, 1int];
    assert(s.drop_first() =~= seq![1int]);
    lemma_eval_const(1, z, p);
    assert(poly_eval(s, z, p) == (c0 + z * 1) % p);
    assert(z * 1 == z);
    vstd::arithmetic::div_mod::lemma_add_mod_noop(0 - x, z, p);
    vstd::arithmetic::div_mod::lemma_mod_twice(0 - x, p);
    vstd::arithmetic::div_mod::lemma_add_mod_noop(c0, z, p);
    vstd::arithmetic::div_mod::lemma_mod_twice(z, p);
}

/// The polynomial of degree below `points.len()` through every point.
pub fn lagrange_interpolate<F: Field>(points: &[(F, F)]) -> (r: Polynomial<F>)
    requires
        points@.len() > 0,
        distinct_xs(points@),
        points@.len() < usize::MAX,
    ensures
        is_normalized(r@),
        r@.len() <= points@.len(),
        forall|k: int| 0 <= k < points@.len() ==> #[trigger] poly_eval(
            r@,
            points@[k].0.val(),
            F::p(),
        ) == points@[k].1.val(),
{
    proof {
        F::lemma_prime_field();
    }
    let n = points.len();
    let ghost p = F::p();
    let ghost ic = inverses_correct::<F>();
    let mut result = Polynomial::zero();
    proof {
        F::lemma_modulus();
        vstd::arithmetic::div_mod::lemma_small_mod(0, p as nat);
        assert forall|k: int| 0 <= k < n implies #[trigger] poly_eval(result@, points@[k].0.val(), p) == 0 by {
            assert(result@ =~= seq![0int]);
            lemma_eval_const(0, points@[k].0.val(), p);
        }
    }
    let mut i: usize = 0;
    while i < n
        invariant
            i <= n,
            n == points@.len(),
            n < usize::MAX,
            p == F::p(),
            p > 64,
            ic == inverses_correct::<F>(),
            distinct_xs(points@),
            no_zero_divisors::<F>(),
            is_normalized(result@),
            result@.len() <= n,
            ic ==> forall|k: int| 0 <= k < n ==> #[trigger] poly_eval(result@, points@[k].0.val(), p) == if k < i {
                points@[k].1.val()
            } else {
                0
            },
        decreases n - i,
    {
        let (xi, yi) = points[i];
        let one = F::one();
        let mut numerator = Polynomial::new(vec![one]);
        let mut denominator = F::one();
        proof {
            assert(vals(seq![one]) =~= seq![1int]);
            crate::poly::lemma_trim_normalized(seq![1int]);
            vstd::arithmetic::div_mod::lemma_small_mod(1, p as nat);
            assert(numerator@ =~= seq![1int]);
            assert forall|k: int| 0 <= k < n implies #[trigger] poly_eval(numerator@, points@[k].0.val(), p) == 1 by {
                lemma_eval_const(1, points@[k].0.val(), p);
            }
        }
        let mut j: usize = 0;
        while j < n
            invariant
                j <= n,
                i < n,
                n == points@.len(),
                n < usize::MAX,
                p == F::p(),
                p > 64,
                distinct_xs(points@),
                no_zero_divisors::<F>(),
                numerator@.len() <= j + 1 - (if j > i { 1int } else { 0 }),
                numerator@.len() >= 1,
                denominator.val() != 0,
                one.val() == 1,
                xi == points@[i as int].0,
                denominator.val() == lagrange_product(points@, i as int, j as nat, xi.val()),
                forall|k: int| 0 <= k < n ==> #[trigger] poly_eval(numerator@, points@[k].0.val(), p)
                    == lagrange_product(points@, i as int, j as nat, points@[k].0.val()),
            decreases n - j,
        {
            if i != j {
                let xj = points[j].0;
                let neg_xj = xj.fneg();
                let factor = Polynomial::new(vec![neg_xj, one]);
                let ghost dold = denominator.val();
                let diff = xi.fsub(xj);
                proof {
                    F::lemma_val_range(xi);
                    F::lemma_val_range(xj);
                    crate::field::lemma_nonzero_diff::<F>(xi.val(), xj.val());
                    F::lemma_val_range(denominator);
                }
                proof {
                    let s = vals(seq![neg_xj, one]);
                    assert(seq![neg_xj, one][1] == one);
                    assert(s[1] == one.val());
                    assert(s.len() == 2);
                    assert(s.last() == s[1]);
                    crate::poly::lemma_trim_normalized(s);
                    assert(s =~= seq![neg_xj.val(), 1int]);
                }
                let ghost old_num = numerator@;
                numerator = numerator.mul_naive(&factor);
                denominator = denominator.fmul(diff);
                proof {
                    F::lemma_val_range(diff);
                    assert(((dold * diff.val()) % F::p()) != 0);
                    assert forall|k: int| 0 <= k < n implies #[trigger] poly_eval(numerator@, points@[k].0.val(), p)
                        == lagrange_product(points@, i as int, (j + 1) as nat, points@[k].0.val()) by {
                        let z = points@[k].0.val();
                        crate::poly_laws::lemma_poly_eval_product(numerator@, old_num, factor@, z, p);
                        lemma_eval_linear_factor(neg_xj.val(), z, xj.val(), p);
                    }
                }
            }
            j = j + 1;
        }
        proof {
            F::lemma_val_range(denominator);
        }
        let d_inv = denominator.inverse().expect("distinct x-coordinates checked above");
        let scale = yi.fmul(d_inv);
        let term = numerator.scale(scale);
        proof {
            assert forall|k: int| k >= n implies #[trigger] coeff(term@, k) == 0 by {
                assert(coeff(numerator@, k) == 0);
                assert(0 * scale.val() == 0);
                vstd::arithmetic::div_mod::lemma_small_mod(0, F::p() as nat);
            }
            lemma_normalized_len_bound(term@, n as int);
        }
        let ghost prev = result@;
        result = result.add(&term);
        proof {
            assert forall|k: int| k >= n implies #[trigger] coeff(result@, k) == 0 by {
                assert(coeff(prev, k) == 0);
                assert(coeff(term@, k) == 0);
                vstd::arithmetic::div_mod::lemma_small_mod(0, F::p() as nat);
            }
            lemma_normalized_len_bound(result@, n as int);
            if ic {
                assert forall|k: int| 0 <= k < n implies #[trigger] poly_eval(result@, points@[k].0.val(), p) == if k < i + 1 {
                    points@[k].1.val()
                } else {
                    0
                } by {
                    let z = points@[k].0.val();
                    crate::poly_laws::lemma_poly_eval_add(result@, prev, term@, z, p);
                    crate::poly_laws::lemma_poly_eval_scale(term@, numerator@, scale.val(), z, p);
                    lemma_term_at_point::<F>(points@, i as int, k, poly_eval(numerator@, z, p), denominator.val(), yi.val(), d_inv.val(), scale.val(), poly_eval(prev, z, p));
                }
            }
        }
        i = i + 1;
    }
    result
}

/// The Lagrange term of point `i` at point `k`, added to the sum so far.
proof fn lemma_term_at_point<F: Field>(
    points: Seq<(F, F)>,
    i: int,
    k: int,
    num_at: int,
    d: int,
    yi: int,
    d_inv: int,
    scale: int,
    prev_at: int,
)
    requires
        0 <= i < points.len(),
        0 <= k < points.len(),
        num_at == lagrange_product(points, i, points.len(), points[k].0.val()),
        d == lagrange_product(points, i, points.len(), points[i].0.val()),
        0 < d < F::p(),
        d_inv == F::inv_val(d),
        yi == points[i].1.val(),
        scale == fm(yi, d_inv, F::p()),
        prev_at == if k < i { points[k].1.val() } else { 0 },
    ensures
        (prev_at + (num_at * scale) % F::p()) % F::p() == if k < i + 1 { points[k].1.val() } else { 0 },
{
    F::lemma_prime_field();
    F::lemma_modulus();
    let p = F::p();
    vstd::arithmetic::div_mod::lemma_small_mod(0, p as nat);
    F::lemma_val_range(points[k].1);
    F::lemma_val_range(points[i].1);
    if k != i {
        lemma_lagrange_product_zero(points, i, points.len(), k);
        assert(0 * scale == 0);
        vstd::arithmetic::div_mod::lemma_small_mod(prev_at as nat, p as nat);
    } else {
        assert(fm(d, d_inv, p) == 1);
        // (d * ((yi * d_inv) % p)) % p == (yi * ((d * d_inv) % p)) % p == yi
        vstd::arithmetic::div_mod::lemma_mul_mod_noop_right(d, yi * d_inv, p);
        vstd::arithmetic::div_mod::lemma_mul_mod_noop_right(yi, d * d_inv, p);
        assert(d * (yi * d_inv) == yi * (d * d_inv)) by (nonlinear_arith);
        vstd::arithmetic::div_mod::lemma_small_mod(yi as nat, p as nat);
        assert(yi * 1 == yi);
    }
}

/// The polynomial whose values on the `evals.len()`-point roots-of-unity
/// domain are `evals`: coefficient `k` is `n^-1` times the transform of
/// `evals` at the `k`-th power of the inverse root.
pub fn fft_interpolate<F: Field>(evals: &[F]) -> (r: Polynomial<F>)
    requires
        is_pow2_len(evals@.len()),
        evals@.len() <= pow2(F::two_adicity_spec()),
    ensures
        is_normalized(r@),
        r@.len() <= evals@.len() || evals@.len() == 0,
        forall|k: int| evals@.len() <= k ==> #[trigger] coeff(r@, k) == 0,
        evals@.len() <= 1 ==> r@ == trim(vals(evals@)),
        forall|k: int|
            0 <= k < evals@.len() ==> #[trigger] coeff(r@, k) == fm(
                dft_at(vals(evals@), pass_root::<F>(true, log2_of(evals@.len())), k, F::p()),
                F::inv_val(evals@.len() as int),
                F::p(),
            ),
        forall|k: int|
            0 <= k < evals@.len() ==> #[trigger] dft_at(r@, stage_root::<F>(log2_of(evals@.len())), k, F::p())
                == evals@[k].val(),
{
    proof {
        F::lemma_prime_field();
    }
    let mut coeffs = copy_vec(evals);
    ifft(&mut coeffs);
    let r = Polynomial::new(coeffs);
    proof {
        lemma_trim_len(vals(coeffs@));
        assert forall|k: int| #[trigger] coeff(r@, k) == coeff(vals(coeffs@), k) by {
            crate::poly::lemma_trim_coeff(vals(coeffs@), k);
        }
        if inverses_correct::<F>() && evals@.len() > 0 {
            let n = evals@.len();
            let ks = choose|k: nat| pow2(k) == n;
            crate::fft::lemma_log2_of(ks);
            if ks > F::two_adicity_spec() {
                vstd::arithmetic::power2::lemma_pow2_strictly_increases(F::two_adicity_spec(), ks);
            }
            assert forall|i: int| 0 <= i < n implies 0 <= #[trigger] vals(evals@)[i] < F::p() by {
                F::lemma_val_range(evals@[i]);
            }
            crate::dft_laws::lemma_dft_interpolation::<F>(vals(evals@), vals(coeffs@), ks);
            assert forall|k: int| 0 <= k < n implies #[trigger] dft_at(r@, stage_root::<F>(ks), k, F::p())
                == evals@[k].val() by {
                assert(vals(evals@)[k] == evals@[k].val());
                assert(dft_at(vals(coeffs@), stage_root::<F>(ks), k, F::p()) == vals(evals@)[k]);
                crate::poly_laws::lemma_poly_eval_same_coeffs(
                    r@,
                    vals(coeffs@),
                    crate::field::pow_mod(stage_root::<F>(ks), k as nat, F::p()),
                    F::p(),
                );
            }
        }
    }
    r
}

/// Trimming never lengthens a nonempty sequence.
pub proof fn lemma_trim_len(s: Seq<int>)
    ensures
        s.len() > 0 ==> trim(s).len() <= s.len(),
    decreases s.len(),
{
    if s.len() > 1 && s.last() == 0 {
        lemma_trim_len(s.drop_last());
    }
}

/// The interpolant is unique: two polynomials with at most as many
/// coefficients as there are points, both through every point (with
/// distinct x-coordinates), take the same value everywhere.
pub proof fn lemma_interpolant_unique<F: Field>(points: Seq<(F, F)>, f: Seq<int>, g: Seq<int>, x: int)
    requires
        distinct_xs(points),
        f.len() <= points.len(),
        g.len() <= points.len(),
        forall|k: int| 0 <= k < points.len() ==> #[trigger] poly_eval(f, points[k].0.val(), F::p()) == points[k].1.val(),
        forall|k: int| 0 <= k < points.len() ==> #[trigger] poly_eval(g, points[k].0.val(), F::p()) == points[k].1.val(),
    ensures
        poly_eval(f, x, F::p()) == poly_eval(g, x, F::p()),
{
    F::lemma_prime_field();
    let xs = Seq::new(points.len(), |k: int| points[k].0.val());
    assert forall|i: int| 0 <= i < xs.len() implies 0 <= #[trigger] xs[i] < F::p() by {
        F::lemma_val_range(points[i].0);
    }
    assert forall|i: int| 0 <= i < xs.len() implies #[trigger] poly_eval(f, xs[i], F::p()) == poly_eval(g, xs[i], F::p()) by {
        assert(poly_eval(f, points[i].0.val(), F::p()) == points[i].1.val());
        assert(poly_eval(g, points[i].0.val(), F::p()) == points[i].1.val());
    }
    crate::fri_laws::lemma_agree_everywhere::<F>(f, g, xs, x);
}

} // verus!
