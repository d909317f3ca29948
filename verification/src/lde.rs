//! Low-degree extension: evaluating a polynomial given by coefficients on
//! a coset `offset * H` of a larger power-of-two domain `H`.

use vstd::prelude::*;
use vstd::arithmetic::power::pow;
use vstd::arithmetic::power2::pow2;
use vstd::arithmetic::div_mod::*;
use vstd::arithmetic::mul::*;
use crate::field::{Field, pow_mod, vals};
use crate::poly::{coeff, poly_eval};
use crate::fft::{fft, is_pow2_len, log2_exact, lemma_pow2_le, log2_of, lemma_log2_of, lemma_pow2_mul};

verus! {

/// The `i`-th point of the coset `offset * <g>`.
pub open spec fn coset_point(offset: int, g: int, i: nat, p: int) -> int {
    (offset * pow(g, i)) % p
}

/// The generator of the `2^k`-point subgroup that `root_of_unity(k)` returns.
pub open spec fn subgroup_generator<F: Field>(k: nat) -> int {
    pow_mod(F::prim_root_val(), pow2((F::two_adicity_spec() - k) as nat), F::p())
}

/// Multiplying by `g` steps from one coset point to the next.
proof fn lemma_coset_step(offset: int, g: int, gv: int, i: nat, p: int)
    requires
        p > 0,
        0 <= g < p,
    ensures
        ((coset_point(offset, g, i, p) * g) % p) == coset_point(offset, g, i + 1, p),
{
    let x = offset * pow(g, i);
    lemma_mul_mod_noop_left(x, g, p);
    vstd::arithmetic::power::lemma_pow_adds(g, i, 1);
    vstd::arithmetic::power::lemma_pow1(g);
    lemma_mul_is_associative(offset, pow(g, i), g);
}

/// The coset `offset * H` of the `size`-point subgroup `H`, in generator order.
pub fn coset_domain<F: Field>(size: usize, offset: F) -> (r: Vec<F>)
    requires
        is_pow2_len(size as nat),
        size <= pow2(F::two_adicity_spec()),
    ensures
        r@.len() == size,
        forall|i: int| 0 <= i < size ==> #[trigger] vals(r@)[i] == coset_point(
            offset.val(),
            subgroup_generator::<F>(log2_of(size as nat)),
            i as nat,
            F::p(),
        ),
{
    proof {
        F::lemma_modulus();
    }
    let log_n = match log2_exact(size) {
        Some(k) => k,
        None => {
            return Vec::new();
        },
    };
    proof {
        if log_n > F::two_adicity_spec() {
            vstd::arithmetic::power2::lemma_pow2_strictly_increases(F::two_adicity_spec(), log_n as nat);
        }
    }
    let generator = F::root_of_unity(log_n);
    let ghost g = generator.val();
    let mut domain: Vec<F> = Vec::with_capacity(size);
    let mut x = offset;
    let mut i: usize = 0;
    proof {
        F::lemma_val_range(offset);
        F::lemma_val_range(generator);
        vstd::arithmetic::power::lemma_pow0(g);
        lemma_small_mod(offset.val() as nat, F::p() as nat);
    }
    while i < size
        invariant
            i <= size,
            domain@.len() == i,
            F::p() > 2,
            0 <= g < F::p(),
            g == generator.val(),
            x.val() == coset_point(offset.val(), g, i as nat, F::p()),
            forall|j: int| 0 <= j < i ==> #[trigger] vals(domain@)[j] == coset_point(offset.val(), g, j as nat, F::p()),
        decreases size - i,
    {
        let ghost before = domain@;
        domain.push(x);
        proof {
            assert(vals(domain@) =~= vals(before).push(x.val()));
            lemma_coset_step(offset.val(), g, g, i as nat, F::p());
        }
        x = x.fmul(generator);
        i = i + 1;
    }
    proof {
        lemma_log2_of(log_n as nat);
        assert(subgroup_generator::<F>(log_n as nat) == g);
    }
    domain
}

/// Evaluates the polynomial with the given coefficients on the coset
/// `offset * H` of the `coeffs.len() * blowup_factor`-point subgroup `H`:
/// entry `i` is the polynomial's value at `offset * g^i`.
pub fn low_degree_extend<F: Field>(coeffs: &[F], blowup_factor: usize, offset: F) -> (r: Vec<F>)
    requires
        is_pow2_len(coeffs@.len()),
        is_pow2_len(blowup_factor as nat),
        offset.val() != 0,
        coeffs@.len() * blowup_factor <= pow2(F::two_adicity_spec()),
        coeffs@.len() * blowup_factor <= usize::MAX,
    ensures
        r@.len() == coeffs@.len() * blowup_factor,
        forall|i: int|
            0 <= i < r@.len() ==> #[trigger] r@[i].val() == poly_eval(
                vals(coeffs@),
                coset_point(
                    offset.val(),
                    subgroup_generator::<F>(log2_of((coeffs@.len() * blowup_factor) as nat)),
                    i as nat,
                    F::p(),
                ),
                F::p(),
            ),
{
    proof {
        F::lemma_modulus();
        lemma_pow2_le(F::two_adicity_spec(), 32);
        vstd::arithmetic::power2::lemma2_to64();
    }
    let n = coeffs.len();
    let big_n = n * blowup_factor;
    let ghost p = F::p();
    let ghost o = offset.val();
    let ghost c = vals(coeffs@);
    let mut padded: Vec<F> = Vec::with_capacity(big_n);
    let mut offset_pow = F::one();
    let mut i: usize = 0;
    proof {
        vstd::arithmetic::power::lemma_pow0(o);
        lemma_small_mod(1, p as nat);
    }
    while i < big_n
        invariant
            i <= big_n,
            big_n == n * blowup_factor,
            n == coeffs@.len(),
            c == vals(coeffs@),
            p == F::p(),
            p > 64,
            o == offset.val(),
            padded@.len() == i,
            i <= n ==> offset_pow.val() == pow(o, i as nat) % p,
            forall|k: int|
                0 <= k < i ==> #[trigger] coeff(vals(padded@), k) == (coeff(c, k) * (pow(o, k as nat) % p)) % p,
        decreases big_n - i,
    {
        let ghost before = padded@;
        let ghost op = offset_pow.val();
        if i < n {
            padded.push(coeffs[i].fmul(offset_pow));
            proof {
                assert(padded@[i as int].val() == (c[i as int] * op) % p);
                vstd::arithmetic::power::lemma_pow_adds(o, i as nat, 1);
                vstd::arithmetic::power::lemma_pow1(o);
                lemma_mul_mod_noop_left(pow(o, i as nat), o, p);
            }
            offset_pow = offset_pow.fmul(offset);
        } else {
            padded.push(F::zero());
            proof {
                assert(coeff(c, i as int) == 0);
                assert(0 * (pow(o, i as nat) % p) == 0);
                lemma_small_mod(0, p as nat);
            }
        }
        proof {
            crate::poly::lemma_vals_push(before, padded@.last());
            assert(padded@ == before.push(padded@.last()));
            assert forall|k: int| 0 <= k < i + 1 implies #[trigger] coeff(vals(padded@), k) == (coeff(c, k) * (pow(o, k as nat) % p)) % p by {
                if k < i {
                    assert(coeff(vals(padded@), k) == coeff(vals(before), k));
                } else {
                    assert(coeff(vals(padded@), k) == padded@[i as int].val());
                }
            }
        }
        i = i + 1;
    }
    proof {
        lemma_pow2_mul(n as nat, blowup_factor as nat);
    }
    let ghost pre = padded@;
    fft(&mut padded);
    proof {
        let kb = choose|k: nat| pow2(k) == blowup_factor as nat;
        vstd::arithmetic::power2::lemma_pow2_pos(kb);
        assert(n * blowup_factor >= n) by (nonlinear_arith)
            requires blowup_factor >= 1;
        let w = crate::fft::stage_root::<F>(log2_of(big_n as nat));
        assert(subgroup_generator::<F>(log2_of(big_n as nat)) == w);
        assert forall|i: int| 0 <= i < padded@.len() implies #[trigger] padded@[i].val() == poly_eval(
            c,
            coset_point(o, w, i as nat, p),
            p,
        ) by {
            let x = pow(w, i as nat);
            crate::dft::lemma_poly_eval_point_mod(vals(pre), x, p);
            crate::poly_laws::lemma_poly_eval_coset(vals(pre), c, o, x, p);
            crate::dft::lemma_poly_eval_point_mod(c, o * x, p);
        }
    }
    padded
}

} // verus!
