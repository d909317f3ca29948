//! FRI folding: one round halves a layer of evaluations by splitting the
//! polynomial into its even and odd parts and combining them with a
//! verifier challenge `beta`.

use vstd::prelude::*;
use vstd::arithmetic::power2::pow2;
use crate::field::{Field, pow_mod, vals, fa, fs, fm};
use crate::poly::lemma_vals_push;

verus! {

/// The value of the folded polynomial at `x^2`, from the values `a = f(x)`
/// and `b = f(-x)`: `(a + b)/2 + beta * (a - b)/(2x)`.
#[verifier::opaque]
pub open spec fn fold_spec<F: Field>(a: int, b: int, x: int, beta: int) -> int {
    let p = F::p();
    let two_inv = F::inv_val(2);
    let even = fm(fa(a, b, p), two_inv, p);
    let odd = fm(fm(fs(a, b, p), two_inv, p), F::inv_val(x), p);
    fa(even, fm(beta, odd, p), p)
}

/// The `i`-th point of the domain after `r` folds: `(offset * g^i)^(2^r)`.
#[verifier::opaque]
pub open spec fn domain_point_spec<F: Field>(offset: int, generator: int, i: nat, r: nat) -> int {
    pow_mod(fm(offset, pow_mod(generator, i, F::p()), F::p()), pow2(r), F::p())
}

/// The inverse of two, which exists in every field here (`p > 2`).
fn two_inverse<F: Field>() -> (r: F)
    ensures
        r.val() == F::inv_val(2),
{
    proof {
        F::lemma_modulus();
    }
    let two = F::from_u64(2);
    proof {
        assert(2int % F::p() == 2) by {
            vstd::arithmetic::div_mod::lemma_small_mod(2, F::p() as nat);
        }
    }
    two.inverse().expect("2 is invertible")
}

/// Folds `f(x) = a`, `f(-x) = b` at the point `x` with challenge `beta`.
pub fn fold_value<F: Field>(a: F, b: F, x: F, beta: F) -> (r: F)
    requires
        x.val() != 0,
    ensures
        r.val() == fold_spec::<F>(a.val(), b.val(), x.val(), beta.val()),
{
    let two_inv = two_inverse::<F>();
    let even = a.fadd(b).fmul(two_inv);
    let x_inv = x.inverse().expect("domain points are nonzero");
    let odd = a.fsub(b).fmul(two_inv).fmul(x_inv);
    proof {
        reveal(fold_spec);
    }
    even.fadd(beta.fmul(odd))
}

/// Folds a whole layer: entry `i` combines `evals[i]` and `evals[i + n/2]`
/// at `domain[i]`; the next domain holds the squares of the first half.
pub fn fold_layer<F: Field>(evals: &[F], domain: &[F], beta: F) -> (r: (Vec<F>, Vec<F>))
    requires
        domain@.len() >= evals@.len() / 2,
        forall|i: int| 0 <= i < evals@.len() / 2 ==> #[trigger] domain@[i].val() != 0,
    ensures
        r.0@.len() == evals@.len() / 2,
        r.1@.len() == evals@.len() / 2,
        forall|i: int| 0 <= i < evals@.len() / 2 ==> #[trigger] vals(r.0@)[i] == fold_spec::<F>(
            evals@[i].val(),
            evals@[i + evals@.len() / 2].val(),
            domain@[i].val(),
            beta.val(),
        ),
        forall|i: int| 0 <= i < evals@.len() / 2 ==> #[trigger] vals(r.1@)[i] == fm(
            domain@[i].val(),
            domain@[i].val(),
            F::p(),
        ),
{
    let half = evals.len() / 2;
    let mut next_evals: Vec<F> = Vec::with_capacity(half);
    let mut next_domain: Vec<F> = Vec::with_capacity(half);
    let mut i: usize = 0;
    while i < half
        invariant
            half == evals@.len() / 2,
            domain@.len() >= half,
            forall|j: int| 0 <= j < half ==> #[trigger] domain@[j].val() != 0,
            i <= half,
            next_evals@.len() == i,
            next_domain@.len() == i,
            forall|j: int| 0 <= j < i ==> #[trigger] vals(next_evals@)[j] == fold_spec::<F>(
                evals@[j].val(),
                evals@[j + half].val(),
                domain@[j].val(),
                beta.val(),
            ),
            forall|j: int| 0 <= j < i ==> #[trigger] vals(next_domain@)[j] == fm(
                domain@[j].val(),
                domain@[j].val(),
                F::p(),
            ),
        decreases half - i,
    {
        let a = evals[i];
        let b = evals[i + half];
        let x = domain[i];
        let v = fold_value(a, b, x, beta);
        let sq = x.fmul(x);
        proof {
            lemma_vals_push(next_evals@, v);
            lemma_vals_push(next_domain@, sq);
        }
        next_evals.push(v);
        next_domain.push(sq);
        i = i + 1;
    }
    (next_evals, next_domain)
}

/// The `i`-th point of the domain after `r` folds, computed directly:
/// `(offset * generator^i)^(2^r)`.
pub fn domain_point<F: Field>(offset: F, generator: F, i: usize, r: u32) -> (res: F)
    requires
        r < 64,
    ensures
        res.val() == domain_point_spec::<F>(offset.val(), generator.val(), i as nat, r as nat),
{
    let shift: u64 = r as u64;
    let e: u64 = 1u64 << shift;
    proof {
        vstd::bits::lemma_u64_pow2_no_overflow(shift as nat);
        vstd::bits::lemma_u64_shl_is_mul(1u64, shift);
        reveal(domain_point_spec);
    }
    offset.fmul(generator.pow(i as u64)).pow(e)
}

} // verus!
