//! Dense univariate polynomials over a prime field.
//!
//! A polynomial is modelled by its coefficient sequence (lowest degree
//! first), as canonical integers.  Stored polynomials are normalized: at
//! least one coefficient, and no trailing zero unless the polynomial is the
//! constant 0.

use vstd::prelude::*;
use vstd::arithmetic::div_mod::*;
use vstd::arithmetic::mul::*;
use crate::field::{Field, vals, inverses_correct};
use vstd::arithmetic::power2::pow2;
use crate::fft::{fft, ifft, no_zero_divisors, lemma_pow2_le, lemma_log2_of};

verus! {

/// Coefficient `i` of `s`, zero past the end.
pub open spec fn coeff(s: Seq<int>, i: int) -> int {
    if 0 <= i < s.len() {
        s[i]
    } else {
        0
    }
}

/// At least one coefficient, and no trailing zero unless it is the only one.
pub open spec fn is_normalized(s: Seq<int>) -> bool {
    s.len() >= 1 && (s.len() == 1 || s.last() != 0)
}

/// Drops trailing zero coefficients; the empty sequence becomes `[0]`.
pub open spec fn trim(s: Seq<int>) -> Seq<int>
    decreases s.len(),
{
    if s.len() == 0 {
        seq![0]
    } else if s.len() > 1 && s.last() == 0 {
        trim(s.drop_last())
    } else {
        s
    }
}

/// `c[0] + x * (c[1] + x * (c[2] + ...))` modulo `p`: the value of the
/// polynomial with coefficients `c` at `x`.
pub open spec fn poly_eval(c: Seq<int>, x: int, p: int) -> int
    decreases c.len(),
{
    if c.len() == 0 {
        0
    } else {
        (c[0] + x * poly_eval(c.drop_first(), x, p)) % p
    }
}

/// `sum_{i < m} a_i * b_{k - i}` modulo `p`: the first `m` terms of
/// coefficient `k` of the product of `a` and `b`.
pub open spec fn conv(a: Seq<int>, b: Seq<int>, k: int, m: nat, p: int) -> int
    decreases m,
{
    if m == 0 {
        0
    } else {
        (conv(a, b, k, (m - 1) as nat, p) + coeff(a, m - 1) * coeff(b, k - (m - 1))) % p
    }
}

/// The top coefficient of the product is the product of the leading
/// coefficients: every earlier term meets a coefficient of `b` past its end.
pub proof fn lemma_conv_top(a: Seq<int>, b: Seq<int>, p: int)
    requires
        a.len() >= 1,
        b.len() >= 1,
        p > 1,
    ensures
        conv(a, b, a.len() + b.len() - 2, a.len(), p) == (a[a.len() - 1] * b[b.len() - 1]) % p,
{
    let k = a.len() + b.len() - 2;
    lemma_conv_top_prefix(a, b, p, (a.len() - 1) as nat);
    lemma_small_mod(0, p as nat);
}

/// The first `m < a.len()` terms of the top coefficient vanish.
proof fn lemma_conv_top_prefix(a: Seq<int>, b: Seq<int>, p: int, m: nat)
    requires
        a.len() >= 1,
        b.len() >= 1,
        p > 1,
        m <= a.len() - 1,
    ensures
        conv(a, b, a.len() + b.len() - 2, m, p) == 0,
    decreases m,
{
    if m > 0 {
        lemma_conv_top_prefix(a, b, p, (m - 1) as nat);
        let k = a.len() + b.len() - 2;
        assert(coeff(b, k - (m - 1)) == 0);
        assert(coeff(a, m - 1) * coeff(b, k - (m - 1)) == 0);
        lemma_small_mod(0, p as nat);
    }
}

/// Coefficient `k` of the product of `a` and `b`, modulo `p`.
pub open spec fn product_coeff(a: Seq<int>, b: Seq<int>, k: int, p: int) -> int {
    conv(a, b, k, a.len(), p)
}

/// Trimming keeps every coefficient.
pub proof fn lemma_trim_coeff(s: Seq<int>, i: int)
    ensures
        coeff(trim(s), i) == coeff(s, i),
        is_normalized(trim(s)),
    decreases s.len(),
{
    if s.len() == 0 {
        assert(trim(s) == seq![0int]);
    } else if s.len() > 1 && s.last() == 0 {
        lemma_trim_coeff(s.drop_last(), i);
        assert(trim(s) == trim(s.drop_last()));
        if i == s.len() - 1 {
            assert(coeff(s, i) == 0);
        }
    } else {
        assert(trim(s) == s);
    }
}

/// Updating an element updates its representative.
pub proof fn lemma_vals_update<F: Field>(s: Seq<F>, i: int, x: F)
    requires
        0 <= i < s.len(),
    ensures
        vals(s.update(i, x)) == vals(s).update(i, x.val()),
{
    assert(vals(s.update(i, x)) =~= vals(s).update(i, x.val()));
}

/// Pushing an element pushes its representative.
pub proof fn lemma_vals_push<F: Field>(s: Seq<F>, x: F)
    ensures
        vals(s.push(x)) == vals(s).push(x.val()),
{
    assert(vals(s.push(x)) =~= vals(s).push(x.val()));
}

/// A normalized sequence whose coefficients vanish from `m` on has at most `m` entries.
pub proof fn lemma_normalized_len_bound(s: Seq<int>, m: int)
    requires
        is_normalized(s),
        m >= 1,
        forall|i: int| i >= m ==> #[trigger] coeff(s, i) == 0,
    ensures
        s.len() <= m,
{
    if s.len() > m {
        assert(coeff(s, s.len() - 1) == 0);
    }
}

/// Two normalized sequences with the same coefficients are equal.
pub proof fn lemma_normalized_unique(s: Seq<int>, t: Seq<int>)
    requires
        is_normalized(s),
        is_normalized(t),
        forall|i: int| coeff(s, i) == coeff(t, i),
    ensures
        s == t,
{
    if s.len() < t.len() {
        assert(coeff(s, t.len() - 1) == coeff(t, t.len() - 1));
        assert(t.len() > 1);
        assert(t.last() == t[t.len() - 1]);
    } else if t.len() < s.len() {
        assert(coeff(s, s.len() - 1) == coeff(t, s.len() - 1));
        assert(s.len() > 1);
        assert(s.last() == s[s.len() - 1]);
    }
    assert forall|i: int| 0 <= i < s.len() implies s[i] == t[i] by {
        assert(coeff(s, i) == coeff(t, i));
    }
    assert(s =~= t);
}

/// Trimming a nonempty sequence keeps a prefix of it and drops only zeros;
/// trimming the empty sequence gives the zero polynomial.
pub proof fn lemma_trim_prefix(s: Seq<int>)
    ensures
        is_normalized(trim(s)),
        s.len() == 0 ==> trim(s) == seq![0int],
        s.len() > 0 ==> {
            &&& trim(s).len() <= s.len()
            &&& trim(s) == s.subrange(0, trim(s).len() as int)
            &&& forall|k: int| trim(s).len() <= k < s.len() ==> #[trigger] s[k] == 0
        },
    decreases s.len(),
{
    lemma_trim_coeff(s, 0);
    if s.len() > 1 && s.last() == 0 {
        let t = s.drop_last();
        lemma_trim_prefix(t);
        assert(trim(s) == trim(t));
        assert(t.subrange(0, trim(t).len() as int) =~= s.subrange(0, trim(t).len() as int));
        assert forall|k: int| trim(s).len() <= k < s.len() implies #[trigger] s[k] == 0 by {
            if k < t.len() {
                assert(t[k] == s[k]);
            }
        }
    } else if s.len() > 0 {
        assert(s.subrange(0, s.len() as int) =~= s);
    }
}

/// A normalized sequence is its own trim.
pub proof fn lemma_trim_normalized(s: Seq<int>)
    requires
        is_normalized(s),
    ensures
        trim(s) == s,
{
}

/// A product coefficient sum in which every term of `a` is zero is zero.
proof fn lemma_conv_zero_left(a: Seq<int>, b: Seq<int>, k: int, m: nat, p: int)
    requires
        p > 0,
        forall|i: int| 0 <= i < a.len() ==> a[i] == 0,
    ensures
        conv(a, b, k, m, p) == 0,
    decreases m,
{
    if m > 0 {
        lemma_conv_zero_left(a, b, k, (m - 1) as nat, p);
        assert(coeff(a, m - 1) == 0);
        assert(coeff(a, m - 1) * coeff(b, k - (m - 1)) == 0);
        lemma_small_mod(0, p as nat);
    }
}

/// A product coefficient sum in which every term of `b` is zero is zero.
proof fn lemma_conv_zero_right(a: Seq<int>, b: Seq<int>, k: int, m: nat, p: int)
    requires
        p > 0,
        forall|i: int| 0 <= i < b.len() ==> b[i] == 0,
    ensures
        conv(a, b, k, m, p) == 0,
    decreases m,
{
    if m > 0 {
        lemma_conv_zero_right(a, b, k, (m - 1) as nat, p);
        assert(coeff(b, k - (m - 1)) == 0);
        assert(coeff(a, m - 1) * coeff(b, k - (m - 1)) == 0);
        lemma_small_mod(0, p as nat);
    }
}

/// A polynomial over `F`.
#[derive(PartialEq, Eq, Debug)]
pub struct Polynomial<F: Field> {
    coeffs: Vec<F>,
}

/// A vector holding the same elements as the slice.
pub fn copy_vec<F: Field>(s: &[F]) -> (r: Vec<F>)
    ensures
        r@ == s@,
{
    let n = s.len();
    let mut v: Vec<F> = Vec::with_capacity(n);
    let mut i: usize = 0;
    while i < n
        invariant
            i <= n,
            n == s@.len(),
            v@ == s@.subrange(0, i as int),
        decreases n - i,
    {
        v.push(s[i]);
        i = i + 1;
        proof {
            assert(v@ =~= s@.subrange(0, i as int));
        }
    }
    proof {
        assert(v@ =~= s@);
    }
    v
}

/// Zero-pads `coeffs` to `n` entries.
pub fn pad_to<F: Field>(coeffs: &[F], n: usize) -> (r: Vec<F>)
    requires
        coeffs@.len() <= n,
    ensures
        r@.len() == n,
        forall|i: int| 0 <= i < coeffs@.len() ==> #[trigger] r@[i] == coeffs@[i],
        forall|i: int| coeffs@.len() <= i < n ==> #[trigger] r@[i].val() == 0,
{
    let mut out = copy_vec(coeffs);
    while out.len() < n
        invariant
            coeffs@.len() <= out@.len() <= n,
            forall|i: int| 0 <= i < coeffs@.len() ==> #[trigger] out@[i] == coeffs@[i],
            forall|i: int| coeffs@.len() <= i < out@.len() ==> #[trigger] out@[i].val() == 0,
        decreases n - out@.len(),
    {
        out.push(F::zero());
    }
    out
}

/// A vector of `n` copies of `x`.
pub fn filled<F: Field>(x: F, n: usize) -> (r: Vec<F>)
    ensures
        r@.len() == n,
        forall|i: int| 0 <= i < n ==> r@[i] == x,
{
    let mut v: Vec<F> = Vec::with_capacity(n);
    let mut i: usize = 0;
    while i < n
        invariant
            i <= n,
            v@.len() == i,
            forall|j: int| 0 <= j < i ==> v@[j] == x,
        decreases n - i,
    {
        v.push(x);
        i = i + 1;
    }
    v
}

impl<F: Field> View for Polynomial<F> {
    type V = Seq<int>;

    closed spec fn view(&self) -> Seq<int> {
        vals(self.coeffs@)
    }
}

impl<F: Field> Polynomial<F> {
    #[verifier::type_invariant]
    spec fn wf(self) -> bool {
        is_normalized(vals(self.coeffs@))
    }

    /// The stored coefficients.
    pub closed spec fn coeff_seq(&self) -> Seq<F> {
        self.coeffs@
    }

    /// The stored coefficients are the field elements behind the view.
    pub proof fn lemma_view(&self)
        ensures
            self@ == vals(self.coeff_seq()),
    {
    }

    /// Creates a polynomial, dropping trailing zero coefficients.
    pub fn new(coeffs: Vec<F>) -> (r: Self)
        ensures
            r@ == trim(vals(coeffs@)),
            is_normalized(r@),
            coeffs@.len() > 0 ==> r.coeff_seq() == coeffs@.subrange(0, r.coeff_seq().len() as int),
    {
        let ghost orig = coeffs@;
        let mut coeffs = coeffs;
        proof {
            assert(coeffs@.subrange(0, coeffs@.len() as int) =~= coeffs@);
        }
        while coeffs.len() > 1 && coeffs[coeffs.len() - 1].is_zero()
            invariant
                coeffs@.len() <= orig.len(),
                coeffs@ == orig.subrange(0, coeffs@.len() as int),
                trim(vals(coeffs@)) == trim(vals(orig)),
                orig.len() > 0 ==> coeffs@.len() > 0,
            decreases coeffs.len(),
        {
            let ghost before = coeffs@;
            coeffs.pop();
            proof {
                assert(vals(before).drop_last() =~= vals(coeffs@));
                assert(coeffs@ =~= orig.subrange(0, coeffs@.len() as int));
            }
        }
        if coeffs.len() == 0 {
            coeffs.push(F::zero());
            proof {
                assert(vals(coeffs@) =~= seq![0int]);
            }
        }
        proof {
            let s = vals(coeffs@);
            assert(is_normalized(s));
            if orig.len() > 0 {
                lemma_trim_normalized(s);
            }
        }
        Polynomial { coeffs }
    }

    /// The zero polynomial.
    pub fn zero() -> (r: Self)
        ensures
            r@ == seq![0int],
    {
        let coeffs = vec![F::zero()];
        proof {
            assert(vals(coeffs@) =~= seq![0int]);
        }
        Polynomial { coeffs }
    }

    /// Is every coefficient zero?
    pub fn is_zero(&self) -> (r: bool)
        ensures
            r == (forall|i: int| 0 <= i < self@.len() ==> self@[i] == 0),
            r == (self@ == seq![0int]),
    {
        proof {
            use_type_invariant(self);
        }
        let mut i: usize = 0;
        while i < self.coeffs.len()
            invariant
                i <= self.coeffs@.len(),
                self@.len() == self.coeffs@.len(),
                forall|j: int| 0 <= j < i ==> self@[j] == 0,
            decreases self.coeffs.len() - i,
        {
            if !self.coeffs[i].is_zero() {
                proof {
                    assert(vals(self.coeffs@)[i as int] == self.coeffs@[i as int].val());
                    assert(self@[i as int] != 0);
                    if self@ == seq![0int] {
                        assert(seq![0int][i as int] == 0);
                    }
                }
                return false;
            }
            i = i + 1;
        }
        proof {
            if self@.len() > 1 {
                assert(self@.last() == 0);
            }
            assert(self@ =~= seq![0int]);
        }
        true
    }

    /// The coefficients, lowest degree first.
    pub fn coeffs(&self) -> (r: &[F])
        ensures
            r@ == self.coeff_seq(),
            vals(r@) == self@,
    {
        self.coeffs.as_slice()
    }

    /// The degree (0 for constants, including the zero polynomial).
    pub fn degree(&self) -> (r: usize)
        ensures
            r == self@.len() - 1,
            is_normalized(self@),
    {
        proof {
            use_type_invariant(self);
        }
        self.coeffs.len() - 1
    }

    /// Every stored polynomial is normalized.
    pub fn check_normalized(&self)
        ensures
            is_normalized(self@),
    {
        proof {
            use_type_invariant(self);
        }
    }

    /// The value at `x`, by Horner's rule.
    pub fn eval(&self, x: F) -> (r: F)
        ensures
            r.val() == poly_eval(self@, x.val(), F::p()),
    {
        proof {
            F::lemma_modulus();
        }
        let n = self.coeffs.len();
        let ghost c = self@;
        let mut acc = F::zero();
        let mut i = n;
        proof {
            assert(c.subrange(n as int, n as int) =~= Seq::<int>::empty());
        }
        while i > 0
            invariant
                i <= n,
                n == self.coeffs@.len(),
                c == self@,
                c.len() == n,
                F::p() > 2,
                acc.val() == poly_eval(c.subrange(i as int, n as int), x.val(), F::p()),
            decreases i,
        {
            i = i - 1;
            let ci = self.coeffs[i];
            let ghost a0 = acc.val();
            acc = acc.fmul(x).fadd(ci);
            proof {
                let tail = c.subrange(i as int, n as int);
                assert(tail.drop_first() =~= c.subrange(i + 1, n as int));
                assert(ci.val() == c[i as int]);
                lemma_add_mod_noop(a0 * x.val(), ci.val(), F::p());
                lemma_mod_twice(ci.val(), F::p());
                F::lemma_val_range(ci);
                lemma_small_mod(ci.val() as nat, F::p() as nat);
                lemma_mul_is_commutative(a0, x.val());
            }
        }
        proof {
            assert(c.subrange(0, n as int) =~= c);
        }
        acc
    }

    /// Coefficient-wise sum.
    pub fn add(&self, rhs: &Self) -> (r: Self)
        ensures
            is_normalized(r@),
            forall|i: int| coeff(r@, i) == (coeff(self@, i) + coeff(rhs@, i)) % F::p(),
            forall|x: int| #[trigger] poly_eval(r@, x, F::p()) == (poly_eval(self@, x, F::p()) + poly_eval(
                rhs@,
                x,
                F::p(),
            )) % F::p(),
    {
        let r = self.combine(rhs, false);
        proof {
            F::lemma_modulus();
            assert forall|x: int| #[trigger] poly_eval(r@, x, F::p()) == (poly_eval(self@, x, F::p())
                + poly_eval(rhs@, x, F::p())) % F::p() by {
                crate::poly_laws::lemma_poly_eval_add(r@, self@, rhs@, x, F::p());
            }
        }
        r
    }

    /// Coefficient-wise difference.
    pub fn sub(&self, rhs: &Self) -> (r: Self)
        ensures
            is_normalized(r@),
            forall|i: int| coeff(r@, i) == (coeff(self@, i) - coeff(rhs@, i)) % F::p(),
            forall|x: int| #[trigger] poly_eval(r@, x, F::p()) == (poly_eval(self@, x, F::p()) - poly_eval(
                rhs@,
                x,
                F::p(),
            )) % F::p(),
    {
        let r = self.combine(rhs, true);
        proof {
            F::lemma_modulus();
            assert forall|x: int| #[trigger] poly_eval(r@, x, F::p()) == (poly_eval(self@, x, F::p())
                - poly_eval(rhs@, x, F::p())) % F::p() by {
                crate::poly_laws::lemma_poly_eval_sub(r@, self@, rhs@, x, F::p());
            }
        }
        r
    }

    fn combine(&self, rhs: &Self, subtract: bool) -> (r: Self)
        ensures
            is_normalized(r@),
            forall|i: int| coeff(r@, i) == if subtract {
                (coeff(self@, i) - coeff(rhs@, i)) % F::p()
            } else {
                (coeff(self@, i) + coeff(rhs@, i)) % F::p()
            },
    {
        proof {
            F::lemma_modulus();
        }
        let la = self.coeffs.len();
        let lb = rhs.coeffs.len();
        let n = if la > lb { la } else { lb };
        let mut out = filled(F::zero(), n);
        let mut i: usize = 0;
        while i < la
            invariant
                i <= la,
                la == self@.len(),
                la <= n,
                out@.len() == n,
                F::p() > 2,
                forall|k: int| 0 <= k < n ==> #[trigger] vals(out@)[k] == if k < i { coeff(self@, k) } else { 0 },
            decreases la - i,
        {
            let c = self.coeffs[i];
            let o = out[i];
            let ghost before = out@;
            let nv = o.fadd(c);
            out.set(i, nv);
            proof {
                lemma_vals_update(before, i as int, nv);
                assert(vals(before)[i as int] == o.val());
                assert(vals(self.coeffs@)[i as int] == c.val());
                F::lemma_val_range(c);
                lemma_small_mod(c.val() as nat, F::p() as nat);
                assert(self@[i as int] == c.val());
            }
            i = i + 1;
        }
        let mut j: usize = 0;
        while j < lb
            invariant
                j <= lb,
                la == self@.len(),
                lb == rhs@.len(),
                lb <= n,
                la <= n,
                out@.len() == n,
                F::p() > 2,
                forall|k: int| 0 <= k < n ==> #[trigger] vals(out@)[k] == if k < j {
                    if subtract {
                        (coeff(self@, k) - coeff(rhs@, k)) % F::p()
                    } else {
                        (coeff(self@, k) + coeff(rhs@, k)) % F::p()
                    }
                } else {
                    coeff(self@, k)
                },
            decreases lb - j,
        {
            let c = rhs.coeffs[j];
            let o = out[j];
            let ghost before = out@;
            let nv = if subtract {
                o.fsub(c)
            } else {
                o.fadd(c)
            };
            out.set(j, nv);
            proof {
                lemma_vals_update(before, j as int, nv);
                assert(rhs@[j as int] == c.val());
                assert(vals(before)[j as int] == o.val());
                F::lemma_val_range(o);
                if j >= la {
                    assert(coeff(self@, j as int) == 0);
                }
            }
            j = j + 1;
        }
        let r = Polynomial::new(out);
        proof {
            use_type_invariant(self);
            use_type_invariant(rhs);
            assert forall|i: int| coeff(r@, i) == if subtract {
                (coeff(self@, i) - coeff(rhs@, i)) % F::p()
            } else {
                (coeff(self@, i) + coeff(rhs@, i)) % F::p()
            } by {
                lemma_trim_coeff(vals(out@), i);
                if 0 <= i < n {
                    assert(vals(out@)[i] == coeff(vals(out@), i));
                    if i >= lb {
                        assert(vals(self.coeffs@)[i] == self.coeffs@[i].val());
                        F::lemma_val_range(self.coeffs@[i]);
                        lemma_small_mod(coeff(self@, i) as nat, F::p() as nat);
                    }
                } else {
                    lemma_small_mod(0, F::p() as nat);
                }
            }
        }
        r
    }

    /// Schoolbook multiplication.
    pub fn mul_naive(&self, rhs: &Self) -> (r: Self)
        requires
            self@.len() + rhs@.len() <= usize::MAX,
        ensures
            is_normalized(r@),
            forall|k: int| coeff(r@, k) == product_coeff(self@, rhs@, k, F::p()),
            r@.len() <= self@.len() + rhs@.len() - 1,
            self@ != seq![0int] && rhs@ != seq![0int] ==> r@.len() == self@.len() + rhs@.len() - 1,
            forall|x: int| #[trigger] poly_eval(r@, x, F::p()) == (poly_eval(self@, x, F::p()) * poly_eval(
                rhs@,
                x,
                F::p(),
            )) % F::p(),
    {
        proof {
            F::lemma_modulus();
            use_type_invariant(self);
            use_type_invariant(rhs);
        }
        if self.is_zero() || rhs.is_zero() {
            let z = Polynomial::zero();
            proof {
                assert forall|k: int| coeff(z@, k) == product_coeff(self@, rhs@, k, F::p()) by {
                    if self@ == seq![0int] {
                        lemma_conv_zero_left(self@, rhs@, k, self@.len(), F::p());
                    } else {
                        lemma_conv_zero_right(self@, rhs@, k, self@.len(), F::p());
                    }
                }
                assert forall|x: int| #[trigger] poly_eval(z@, x, F::p()) == (poly_eval(self@, x, F::p())
                    * poly_eval(rhs@, x, F::p())) % F::p() by {
                    crate::poly_laws::lemma_poly_eval_product(z@, self@, rhs@, x, F::p());
                }
            }
            return z;
        }
        let la = self.coeffs.len();
        let lb = rhs.coeffs.len();
        let n = la + lb - 1;
        let mut out = filled(F::zero(), n);
        let ghost a = self@;
        let ghost b = rhs@;
        let mut i: usize = 0;
        while i < la
            invariant
                i <= la,
                la == a.len(),
                lb == b.len(),
                a == self@,
                b == rhs@,
                la >= 1,
                lb >= 1,
                n == la + lb - 1,
                out@.len() == n,
                F::p() > 2,
                forall|k: int| 0 <= k < n ==> #[trigger] vals(out@)[k] == conv(a, b, k, i as nat, F::p()),
            decreases la - i,
        {
            let ai = self.coeffs[i];
            proof {
                assert(a[i as int] == ai.val());
            }
            if ai.is_zero() {
                proof {
                    assert forall|k: int| 0 <= k < n implies #[trigger] vals(out@)[k] == conv(a, b, k, (i + 1) as nat, F::p()) by {
                        let c0 = conv(a, b, k, i as nat, F::p());
                        assert(coeff(a, i as int) == 0);
                        assert(coeff(a, i as int) * coeff(b, k - i) == 0);
                        lemma_conv_range(a, b, k, i as nat, F::p());
                        lemma_small_mod(c0 as nat, F::p() as nat);
                    }
                }
            } else {
                let mut j: usize = 0;
                while j < lb
                    invariant
                        i < la,
                        j <= lb,
                        la == a.len(),
                        lb == b.len(),
                        a == self@,
                        b == rhs@,
                        ai.val() == a[i as int],
                        n == la + lb - 1,
                        out@.len() == n,
                        F::p() > 2,
                        forall|k: int| 0 <= k < n ==> #[trigger] vals(out@)[k] == if i <= k < i + j {
                            conv(a, b, k, (i + 1) as nat, F::p())
                        } else {
                            conv(a, b, k, i as nat, F::p())
                        },
                    decreases lb - j,
                {
                    let bj = rhs.coeffs[j];
                    let o = out[i + j];
                    let ghost before = out@;
                    let nv = o.fadd(ai.fmul(bj));
                    out.set(i + j, nv);
                    proof {
                        lemma_vals_update(before, (i + j) as int, nv);
                        assert(vals(before)[(i + j) as int] == o.val());
                        let k = (i + j) as int;
                        assert(b[j as int] == bj.val());
                        assert(coeff(b, k - i) == bj.val());
                        assert(coeff(a, i as int) == ai.val());
                        lemma_add_mod_noop_right(o.val(), ai.val() * bj.val(), F::p());
                    }
                    j = j + 1;
                }
                proof {
                    assert forall|k: int| 0 <= k < n implies #[trigger] vals(out@)[k] == conv(a, b, k, (i + 1) as nat, F::p()) by {
                        if !(i <= k < i + lb) {
                            let c0 = conv(a, b, k, i as nat, F::p());
                            assert(coeff(b, k - i) == 0);
                            assert(coeff(a, i as int) * coeff(b, k - i) == 0);
                            lemma_conv_range(a, b, k, i as nat, F::p());
                            lemma_small_mod(c0 as nat, F::p() as nat);
                        }
                    }
                }
            }
            i = i + 1;
        }
        let r = Polynomial::new(out);
        proof {
            assert forall|k: int| coeff(r@, k) == product_coeff(a, b, k, F::p()) by {
                lemma_trim_coeff(vals(out@), k);
                if !(0 <= k < n) {
                    lemma_conv_outside(a, b, k, la as nat, F::p());
                }
            }
            if r@.len() > n {
                assert(coeff(r@, r@.len() - 1) == product_coeff(a, b, r@.len() - 1, F::p()));
                lemma_conv_outside(a, b, r@.len() - 1, la as nat, F::p());
            }
            assert forall|x: int| #[trigger] poly_eval(r@, x, F::p()) == (poly_eval(a, x, F::p()) * poly_eval(
                b,
                x,
                F::p(),
            )) % F::p() by {
                crate::poly_laws::lemma_poly_eval_product(r@, a, b, x, F::p());
            }
            // the top coefficient is the product of the leading ones, which is nonzero
            F::lemma_prime_field();
            lemma_conv_top(a, b, F::p());
            F::lemma_val_range(self.coeffs@[la - 1]);
            F::lemma_val_range(rhs.coeffs@[lb - 1]);
            assert(a[la - 1] == self.coeffs@[la - 1].val());
            assert(b[lb - 1] == rhs.coeffs@[lb - 1].val());
            if la == 1 {
                assert(a =~= seq![a[0]]);
            }
            if lb == 1 {
                assert(b =~= seq![b[0]]);
            }
            assert(a[la - 1] != 0);
            assert(b[lb - 1] != 0);
            assert(coeff(r@, n - 1) == product_coeff(a, b, n - 1, F::p()));
            assert(coeff(r@, n - 1) != 0);
        }
        r
    }

    /// The product, computed by evaluating both factors on a power-of-two
    /// domain large enough for the product, multiplying pointwise and
    /// interpolating back.
    pub fn mul_fft(&self, rhs: &Self) -> (r: Self)
        requires
            self@.len() + rhs@.len() - 1 <= pow2(F::two_adicity_spec()),
            2 * (self@.len() + rhs@.len()) <= usize::MAX,
        ensures
            is_normalized(r@),
            (self@ == seq![0int] || rhs@ == seq![0int]) ==> r@ == seq![0int],
            r@.len() <= self@.len() + rhs@.len() - 1,
            forall|k: int| #[trigger] coeff(r@, k) == product_coeff(self@, rhs@, k, F::p()),
    {
        proof {
            F::lemma_prime_field();
        }
        proof {
            use_type_invariant(self);
            use_type_invariant(rhs);
            F::lemma_modulus();
            lemma_pow2_le(F::two_adicity_spec(), 32);
            vstd::arithmetic::power2::lemma2_to64();
        }
        if self.is_zero() || rhs.is_zero() {
            proof {
                assert forall|k: int| #[trigger] coeff(seq![0int], k) == product_coeff(self@, rhs@, k, F::p()) by {
                    if self@ == seq![0int] {
                        lemma_conv_zero_left(self@, rhs@, k, self@.len(), F::p());
                    } else {
                        lemma_conv_zero_right(self@, rhs@, k, self@.len(), F::p());
                    }
                }
            }
            return Polynomial::zero();
        }
        assert(self.coeffs@.len() == self@.len() && rhs.coeffs@.len() == rhs@.len());
        let result_len = self.coeffs.len() + rhs.coeffs.len() - 1;
        let mut n: usize = 1;
        let ghost mut e: nat = 0;
        proof {
            vstd::arithmetic::power2::lemma_pow2_pos(F::two_adicity_spec());
        }
        while n < result_len
            invariant
                pow2(e) == n,
                n >= 1,
                n <= pow2(F::two_adicity_spec()),
                result_len <= pow2(F::two_adicity_spec()),
                2 * result_len <= usize::MAX,
                pow2(F::two_adicity_spec()) <= pow2(32),
                pow2(32) == 0x1_0000_0000,
            decreases pow2(F::two_adicity_spec()) - n,
        {
            proof {
                vstd::arithmetic::power2::lemma_pow2_unfold(e + 1);
                if e >= F::two_adicity_spec() {
                    lemma_pow2_le(F::two_adicity_spec(), e);
                    assert(false);
                }
                lemma_pow2_le(e + 1, F::two_adicity_spec());
            }
            n = n * 2;
            proof {
                e = e + 1;
            }
        }
        let mut a = pad_to(self.coeffs(), n);
        let mut b = pad_to(rhs.coeffs(), n);
        let ghost pa = a@;
        let ghost pb = b@;
        proof {
            lemma_log2_of(e);
            if e > F::two_adicity_spec() {
                vstd::arithmetic::power2::lemma_pow2_strictly_increases(F::two_adicity_spec(), e);
            }
        }
        fft(&mut a);
        fft(&mut b);
        let ghost ea = a@;
        let ghost eb = b@;
        let mut i: usize = 0;
        while i < n
            invariant
                i <= n,
                a@.len() == n,
                b@ == eb,
                eb.len() == n,
                ea.len() == n,
                forall|k: int| i <= k < n ==> #[trigger] a@[k] == ea[k],
                forall|k: int| 0 <= k < i ==> #[trigger] a@[k].val() == (ea[k].val() * eb[k].val()) % F::p(),
            decreases n - i,
        {
            let v = a[i].fmul(b[i]);
            a.set(i, v);
            i = i + 1;
        }
        let ghost cc = a@;
        ifft(&mut a);
        let ghost fin = a@;
        proof {
            if inverses_correct::<F>() {
                assert forall|k: int| #[trigger] coeff(vals(pa), k) == coeff(self@, k) by {
                    if 0 <= k < n {
                        if k >= self@.len() {
                            assert(pa[k].val() == 0);
                        }
                    }
                }
                assert forall|k: int| #[trigger] coeff(vals(pb), k) == coeff(rhs@, k) by {
                    if 0 <= k < n {
                        if k >= rhs@.len() {
                            assert(pb[k].val() == 0);
                        }
                    }
                }
                crate::dft_laws::lemma_convolution::<F>(self@, rhs@, pa, pb, ea, eb, cc, fin, e);
            }
        }
        a.truncate(result_len);
        let r = Polynomial::new(a);
        proof {
            crate::interpolate::lemma_trim_len(vals(a@));
            if inverses_correct::<F>() {
                assert forall|k: int| #[trigger] coeff(r@, k) == product_coeff(self@, rhs@, k, F::p()) by {
                    lemma_trim_coeff(vals(a@), k);
                    if k < 0 || k >= result_len {
                        lemma_conv_outside(self@, rhs@, k, self@.len(), F::p());
                    } else {
                        assert(a@[k] == fin[k]);
                    }
                }
            }
        }
        r
    }

    /// Multiplies every coefficient by `scalar`.
    pub fn scale(&self, scalar: F) -> (r: Self)
        ensures
            is_normalized(r@),
            forall|i: int| coeff(r@, i) == (coeff(self@, i) * scalar.val()) % F::p(),
    {
        proof {
            F::lemma_modulus();
        }
        let n = self.coeffs.len();
        let mut out: Vec<F> = Vec::with_capacity(n);
        let mut i: usize = 0;
        while i < n
            invariant
                i <= n,
                n == self@.len(),
                out@.len() == i,
                forall|k: int| 0 <= k < i ==> #[trigger] vals(out@)[k] == (self@[k] * scalar.val()) % F::p(),
            decreases n - i,
        {
            let c = self.coeffs[i];
            let ghost before = out@;
            let nv = c.fmul(scalar);
            out.push(nv);
            proof {
                lemma_vals_push(before, nv);
            }
            i = i + 1;
        }
        let r = Polynomial::new(out);
        proof {
            assert forall|i: int| coeff(r@, i) == (coeff(self@, i) * scalar.val()) % F::p() by {
                lemma_trim_coeff(vals(out@), i);
                if !(0 <= i < n) {
                    lemma_small_mod(0, F::p() as nat);
                }
            }
        }
        r
    }
}

/// Partial product sums stay in `0..p`.
pub proof fn lemma_conv_range(a: Seq<int>, b: Seq<int>, k: int, m: nat, p: int)
    requires
        p > 0,
    ensures
        0 <= conv(a, b, k, m, p) < p,
{
    if m > 0 {
        lemma_mod_bound(conv(a, b, k, (m - 1) as nat, p) + coeff(a, m - 1) * coeff(b, k - (m - 1)), p);
    }
}

/// Product coefficients outside `0..la+lb-1` are zero.
pub proof fn lemma_conv_outside(a: Seq<int>, b: Seq<int>, k: int, m: nat, p: int)
    requires
        p > 0,
        m <= a.len(),
        k < 0 || k >= a.len() + b.len() - 1,
    ensures
        conv(a, b, k, m, p) == 0,
    decreases m,
{
    if m > 0 {
        lemma_conv_outside(a, b, k, (m - 1) as nat, p);
        assert(coeff(b, k - (m - 1)) == 0);
        assert(coeff(a, m - 1) * coeff(b, k - (m - 1)) == 0);
        lemma_small_mod(0, p as nat);
    }
}

/// Subtracting what was added gives back the original polynomial.
pub proof fn lemma_add_sub_inverse<F: Field>(a: Seq<int>, b: Seq<int>, sum: Seq<int>, diff: Seq<int>)
    requires
        is_normalized(a),
        forall|i: int| 0 <= i < a.len() ==> 0 <= #[trigger] a[i] < F::p(),
        forall|i: int| 0 <= i < b.len() ==> 0 <= #[trigger] b[i] < F::p(),
        forall|i: int| coeff(sum, i) == (coeff(a, i) + coeff(b, i)) % F::p(),
        forall|i: int| coeff(diff, i) == (coeff(sum, i) - coeff(b, i)) % F::p(),
        is_normalized(diff),
    ensures
        diff == a,
{
    F::lemma_modulus();
    let p = F::p();
    assert forall|i: int| coeff(diff, i) == coeff(a, i) by {
        let x = coeff(a, i);
        let y = coeff(b, i);
        assert(0 <= x < p);
        assert(0 <= y < p);
        lemma_sub_mod_noop(x + y, y, p);
        lemma_mod_twice(y, p);
        lemma_small_mod(y as nat, p as nat);
        lemma_small_mod(x as nat, p as nat);
    }
    lemma_normalized_unique(diff, a);
}

} // verus!
