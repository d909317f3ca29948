//! The AIR of an arithmetic progression: the trace starts at `start`, each
//! step adds `step`, and the last value is the public end value.

use vstd::prelude::*;
use crate::air_soundness::{lemma_field_facts, lemma_sub_zero};
use vstd::arithmetic::power2::pow2;
use crate::field::{Field, pow_mod, vals, fa, fs, fm};
use crate::fft::{is_pow2_len, log2_of, log2_exact, lemma_log2_of};
use crate::lde::subgroup_generator;
use crate::poly::lemma_vals_push;

verus! {

/// The statement: a trace of `trace_len` values from `start` by `step`.
#[derive(Debug, Clone, Copy)]
pub struct PublicInputs<F: Field> {
    pub trace_len: usize,
    pub start: F,
    pub step: F,
}

/// The `i`-th value of the progression.
pub open spec fn progression_value<F: Field>(start: int, step: int, i: int) -> int {
    fa(start, fm(step, i % F::p(), F::p()), F::p())
}

/// The last point `w^(n-1)` of the `n`-point trace domain.
pub open spec fn last_trace_point<F: Field>(n: nat) -> int {
    pow_mod(subgroup_generator::<F>(log2_of(n)), (n - 1) as nat, F::p())
}

/// The three quotients (transition, start, end) at a point `x` off the
/// trace domain, combined with the challenges `alphas`.
pub open spec fn composition_spec<F: Field>(
    x: int,
    a_here: int,
    a_next: int,
    n: nat,
    last: int,
    end: int,
    start: int,
    step: int,
    alphas: (int, int, int),
) -> int {
    let p = F::p();
    let vanishing_h = fs(pow_mod(x, n, p), 1, p);
    let transition_num = fs(fs(a_next, a_here, p), step, p);
    let transition_zerofier = fm(vanishing_h, F::inv_val(fs(x, last, p)), p);
    let transition_quotient = fm(transition_num, F::inv_val(transition_zerofier), p);
    let start_quotient = fm(fs(a_here, start, p), F::inv_val(fs(x, 1, p)), p);
    let end_quotient = fm(fs(a_here, end, p), F::inv_val(fs(x, last, p)), p);
    fa(
        fa(fm(alphas.0, transition_quotient, p), fm(alphas.1, start_quotient, p), p),
        fm(alphas.2, end_quotient, p),
        p,
    )
}

/// Every denominator of the composition is nonzero at `x`: `x` is neither
/// `1` nor the last trace point, and the transition zerofier is nonzero.
pub open spec fn composition_defined<F: Field>(x: int, n: nat, last: int) -> bool {
    let p = F::p();
    &&& fs(x, last, p) != 0
    &&& fs(x, 1, p) != 0
    &&& fm(fs(pow_mod(x, n, p), 1, p), F::inv_val(fs(x, last, p)), p) != 0
}

/// A quotient `num / den` with a nonzero denominator vanishes exactly when
/// its numerator does.
proof fn lemma_quotient_zero<F: Field>(num: int, den: int)
    requires
        0 <= num < F::p(),
        0 < den < F::p(),
    ensures
        fm(num, F::inv_val(den), F::p()) == 0 <==> num == 0,
{
    let p = F::p();
    F::lemma_modulus();
    F::lemma_prime_field();
    lemma_field_facts(p);
    let inv = F::inv_val(den);
    assert(fm(den, inv, p) == 1);
    if inv % p == 0 {
        vstd::arithmetic::div_mod::lemma_mul_mod_noop_right(den, inv, p);
        assert(fm(den, inv, p) == fm(den, 0, p));
    }
    vstd::arithmetic::div_mod::lemma_mul_mod_noop_right(num, inv, p);
    let i = inv % p;
    assert(0 < i < p);
    if num != 0 {
        assert(((num * i) % p) != 0);
    }
}

/// Each challenge weighs one constraint, at any point where the
/// composition is defined: with the transition challenge alone the
/// composition vanishes exactly when the next value is the current one plus
/// the step; with the start challenge alone, exactly when the current value
/// is the start; with the end challenge alone, exactly when it is the end.
pub proof fn lemma_composition_separates_constraints<F: Field>(
    x: int,
    a_here: int,
    a_next: int,
    n: nat,
    last: int,
    end: int,
    start: int,
    step: int,
)
    requires
        composition_defined::<F>(x, n, last),
        0 <= a_here < F::p(),
        0 <= a_next < F::p(),
        0 <= end < F::p(),
        0 <= start < F::p(),
        0 <= step < F::p(),
    ensures
        composition_spec::<F>(x, a_here, a_next, n, last, end, start, step, (1, 0, 0)) == 0 <==> a_next
            == fa(a_here, step, F::p()),
        composition_spec::<F>(x, a_here, a_next, n, last, end, start, step, (0, 1, 0)) == 0 <==> a_here == start,
        composition_spec::<F>(x, a_here, a_next, n, last, end, start, step, (0, 0, 1)) == 0 <==> a_here == end,
{
    let p = F::p();
    F::lemma_modulus();
    lemma_field_facts(p);
    let vanishing_h = fs(pow_mod(x, n, p), 1, p);
    let transition_num = fs(fs(a_next, a_here, p), step, p);
    let transition_zerofier = fm(vanishing_h, F::inv_val(fs(x, last, p)), p);
    let tq = fm(transition_num, F::inv_val(transition_zerofier), p);
    let sq = fm(fs(a_here, start, p), F::inv_val(fs(x, 1, p)), p);
    let eq = fm(fs(a_here, end, p), F::inv_val(fs(x, last, p)), p);
    lemma_quotient_zero::<F>(transition_num, transition_zerofier);
    lemma_quotient_zero::<F>(fs(a_here, start, p), fs(x, 1, p));
    lemma_quotient_zero::<F>(fs(a_here, end, p), fs(x, last, p));
    lemma_sub_zero(a_here, start, p);
    lemma_sub_zero(a_here, end, p);
    vstd::arithmetic::div_mod::lemma_small_mod(step as nat, p as nat);
    vstd::arithmetic::div_mod::lemma_sub_mod_noop(a_next - a_here, step, p);
    vstd::arithmetic::div_mod::lemma_sub_mod_noop_right(a_next, a_here + step, p);
    assert(a_next - a_here - step == a_next - (a_here + step));
    assert(transition_num == fs(a_next, fa(a_here, step, p), p));
    lemma_sub_zero(a_next, fa(a_here, step, p), p);
    assert(composition_spec::<F>(x, a_here, a_next, n, last, end, start, step, (1, 0, 0)) == tq);
    assert(composition_spec::<F>(x, a_here, a_next, n, last, end, start, step, (0, 1, 0)) == sq);
    assert(composition_spec::<F>(x, a_here, a_next, n, last, end, start, step, (0, 0, 1)) == eq);
}

impl<F: Field> PublicInputs<F> {
    /// The public end value `start + step * (trace_len - 1)`.
    pub fn end(&self) -> (r: F)
        requires
            self.trace_len >= 1,
        ensures
            r.val() == progression_value::<F>(self.start.val(), self.step.val(), self.trace_len - 1),
    {
        self.start.fadd(self.step.fmul(F::from_u64((self.trace_len - 1) as u64)))
    }
}

/// The honest trace: `start, start + step, start + 2 step, ...`.
pub fn generate_trace<F: Field>(public: &PublicInputs<F>) -> (r: Vec<F>)
    ensures
        r@.len() == public.trace_len,
        forall|i: int| 0 <= i < r@.len() ==> #[trigger] vals(r@)[i] == progression_value::<F>(
            public.start.val(),
            public.step.val(),
            i,
        ),
{
    let ghost p = F::p();
    let ghost s = public.start.val();
    let ghost d = public.step.val();
    proof {
        F::lemma_modulus();
    }
    let mut trace: Vec<F> = Vec::with_capacity(public.trace_len);
    let mut value = public.start;
    let mut i: usize = 0;
    proof {
        F::lemma_val_range(value);
        vstd::arithmetic::div_mod::lemma_small_mod(0, p as nat);
        vstd::arithmetic::div_mod::lemma_small_mod(s as nat, p as nat);
        assert(fm(d, 0int % p, p) == 0) by {
            vstd::arithmetic::div_mod::lemma_small_mod(0, p as nat);
        }
    }
    while i < public.trace_len
        invariant
            i <= public.trace_len,
            p == F::p(),
            p > 64,
            s == public.start.val(),
            d == public.step.val(),
            trace@.len() == i,
            value.val() == progression_value::<F>(s, d, i as int),
            forall|j: int| 0 <= j < i ==> #[trigger] vals(trace@)[j] == progression_value::<F>(s, d, j),
        decreases public.trace_len - i,
    {
        proof {
            lemma_vals_push(trace@, value);
        }
        trace.push(value);
        let ghost v0 = value.val();
        value = value.fadd(public.step);
        proof {
            lemma_progression_step::<F>(s, d, i as int);
        }
        i = i + 1;
    }
    trace
}

/// One more step of the progression adds `step`.
pub proof fn lemma_progression_step<F: Field>(s: int, d: int, i: int)
    requires
        F::p() > 0,
        i >= 0,
    ensures
        (progression_value::<F>(s, d, i) + d) % F::p() == progression_value::<F>(s, d, i + 1),
{
    let p = F::p();
    vstd::arithmetic::div_mod::lemma_mul_mod_noop_right(d, i, p);
    vstd::arithmetic::div_mod::lemma_mul_mod_noop_right(d, i + 1, p);
    vstd::arithmetic::div_mod::lemma_add_mod_noop_right(s, d * i, p);
    vstd::arithmetic::div_mod::lemma_add_mod_noop_right(s, d * (i + 1), p);
    vstd::arithmetic::mul::lemma_mul_is_distributive_add(d, i, 1);
    vstd::arithmetic::div_mod::lemma_add_mod_noop(s + d * i, d, p);
    vstd::arithmetic::div_mod::lemma_mod_twice(s + d * i, p);
    vstd::arithmetic::div_mod::lemma_add_mod_noop((s + d * i) % p, d, p);
    vstd::arithmetic::div_mod::lemma_mod_twice(d, p);
    assert(progression_value::<F>(s, d, i) == (s + d * i) % p);
    assert(progression_value::<F>(s, d, i + 1) == (s + d * i + d) % p);
}

/// The composition at one point.
fn evaluate_composition_at_point<F: Field>(
    x: F,
    a_here: F,
    a_next: F,
    n: usize,
    last_trace_point: F,
    end_value: F,
    public: &PublicInputs<F>,
    alphas: (F, F, F),
) -> (r: F)
    requires
        composition_defined::<F>(x.val(), n as nat, last_trace_point.val()),
    ensures
        r.val() == composition_spec::<F>(
            x.val(),
            a_here.val(),
            a_next.val(),
            n as nat,
            last_trace_point.val(),
            end_value.val(),
            public.start.val(),
            public.step.val(),
            (alphas.0.val(), alphas.1.val(), alphas.2.val()),
        ),
{
    let (alpha_transition, alpha_start, alpha_end) = alphas;
    let one = F::one();
    let vanishing_h = x.pow(n as u64).fsub(one);
    let transition_num = a_next.fsub(a_here).fsub(public.step);
    let x_minus_last = x.fsub(last_trace_point);
    let inv_x_minus_last = x_minus_last.inverse().expect("x is off the trace domain");
    let transition_zerofier = vanishing_h.fmul(inv_x_minus_last);
    let transition_quotient = transition_num.fmul(
        transition_zerofier.inverse().expect("the zerofier is nonzero off the trace domain"),
    );
    let start_num = a_here.fsub(public.start);
    let start_quotient = start_num.fmul(x.fsub(one).inverse().expect("x != 1 off the trace domain"));
    let end_num = a_here.fsub(end_value);
    let end_quotient = end_num.fmul(inv_x_minus_last);
    alpha_transition.fmul(transition_quotient).fadd(alpha_start.fmul(start_quotient)).fadd(
        alpha_end.fmul(end_quotient),
    )
}

/// The generator of the `n`-point trace domain raised to `n - 1`.
pub(crate) fn last_point_of<F: Field>(n: usize) -> (r: F)
    requires
        is_pow2_len(n as nat),
        n <= pow2(F::two_adicity_spec()),
    ensures
        r.val() == last_trace_point::<F>(n as nat),
{
    let log_n = match log2_exact(n) {
        Some(k) => k,
        None => {
            assert(false);
            0
        },
    };
    proof {
        lemma_log2_of(log_n as nat);
        if log_n > F::two_adicity_spec() {
            vstd::arithmetic::power2::lemma_pow2_strictly_increases(F::two_adicity_spec(), log_n as nat);
        }
        vstd::arithmetic::power2::lemma_pow2_pos(log_n as nat);
    }
    let g = F::root_of_unity(log_n);
    g.pow((n - 1) as u64)
}

/// The composition on the whole LDE domain: at point `k` the trace value
/// there and the one `blowup_factor` points on (the next trace step).
pub fn evaluate_composition<F: Field>(
    trace_lde_evals: &[F],
    trace_lde_domain: &[F],
    blowup_factor: usize,
    public: &PublicInputs<F>,
    alphas: (F, F, F),
) -> (r: Vec<F>)
    requires
        trace_lde_domain@.len() == trace_lde_evals@.len(),
        blowup_factor > 0,
        trace_lde_evals@.len() % (blowup_factor as nat) == 0,
        trace_lde_evals@.len() + blowup_factor <= usize::MAX,
        is_pow2_len(public.trace_len as nat),
        public.trace_len <= pow2(F::two_adicity_spec()),
        forall|k: int| 0 <= k < trace_lde_domain@.len() ==> #[trigger] composition_defined::<F>(
            trace_lde_domain@[k].val(),
            public.trace_len as nat,
            last_trace_point::<F>(public.trace_len as nat),
        ),
    ensures
        r@.len() == trace_lde_evals@.len(),
        forall|k: int| 0 <= k < r@.len() ==> #[trigger] vals(r@)[k] == composition_spec::<F>(
            trace_lde_domain@[k].val(),
            trace_lde_evals@[k].val(),
            trace_lde_evals@[(k + blowup_factor) % (trace_lde_evals@.len() as int)].val(),
            public.trace_len as nat,
            last_trace_point::<F>(public.trace_len as nat),
            progression_value::<F>(public.start.val(), public.step.val(), public.trace_len - 1),
            public.start.val(),
            public.step.val(),
            (alphas.0.val(), alphas.1.val(), alphas.2.val()),
        ),
{
    let big_n = trace_lde_evals.len();
    let n = public.trace_len;
    proof {
        let k = choose|k: nat| pow2(k) == n;
        vstd::arithmetic::power2::lemma_pow2_pos(k);
    }
    let last = last_point_of::<F>(n);
    let end_value = public.end();
    let mut composition: Vec<F> = Vec::with_capacity(big_n);
    let mut k: usize = 0;
    while k < big_n
        invariant
            k <= big_n,
            big_n == trace_lde_evals@.len(),
            big_n == trace_lde_domain@.len(),
            big_n + blowup_factor <= usize::MAX,
            n == public.trace_len,
            last.val() == last_trace_point::<F>(n as nat),
            end_value.val() == progression_value::<F>(public.start.val(), public.step.val(), public.trace_len - 1),
            forall|j: int| 0 <= j < big_n ==> #[trigger] composition_defined::<F>(
                trace_lde_domain@[j].val(),
                n as nat,
                last_trace_point::<F>(n as nat),
            ),
            composition@.len() == k,
            forall|j: int| 0 <= j < k ==> #[trigger] vals(composition@)[j] == composition_spec::<F>(
                trace_lde_domain@[j].val(),
                trace_lde_evals@[j].val(),
                trace_lde_evals@[(j + blowup_factor) % (big_n as int)].val(),
                n as nat,
                last_trace_point::<F>(n as nat),
                end_value.val(),
                public.start.val(),
                public.step.val(),
                (alphas.0.val(), alphas.1.val(), alphas.2.val()),
            ),
        decreases big_n - k,
    {
        let x = trace_lde_domain[k];
        let a_here = trace_lde_evals[k];
        let a_next = trace_lde_evals[(k + blowup_factor) % big_n];
        let v = evaluate_composition_at_point(x, a_here, a_next, n, last, end_value, public, alphas);
        proof {
            lemma_vals_push(composition@, v);
        }
        composition.push(v);
        k = k + 1;
    }
    composition
}

/// The composition at one queried point, as the verifier computes it.
pub fn evaluate_composition_at_query_point<F: Field>(
    x: F,
    a_here: F,
    a_next: F,
    public: &PublicInputs<F>,
    alphas: (F, F, F),
) -> (r: F)
    requires
        is_pow2_len(public.trace_len as nat),
        public.trace_len <= pow2(F::two_adicity_spec()),
        composition_defined::<F>(x.val(), public.trace_len as nat, last_trace_point::<F>(public.trace_len as nat)),
    ensures
        r.val() == composition_spec::<F>(
            x.val(),
            a_here.val(),
            a_next.val(),
            public.trace_len as nat,
            last_trace_point::<F>(public.trace_len as nat),
            progression_value::<F>(public.start.val(), public.step.val(), public.trace_len - 1),
            public.start.val(),
            public.step.val(),
            (alphas.0.val(), alphas.1.val(), alphas.2.val()),
        ),
{
    let n = public.trace_len;
    proof {
        let k = choose|k: nat| pow2(k) == n;
        vstd::arithmetic::power2::lemma_pow2_pos(k);
    }
    let last = last_point_of::<F>(n);
    evaluate_composition_at_point(x, a_here, a_next, n, last, public.end(), public, alphas)
}

} // verus!
