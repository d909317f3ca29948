//! Prime-field arithmetic: the interface every field implements, and the
//! two concrete fields (GF(97) for readable demos, Goldilocks for real use).
//!
//! A field element is modelled by its canonical representative `val()`,
//! an integer in `0..p()`.  Every operation is specified as the matching
//! operation on integers modulo `p()`.

use vstd::prelude::*;
use vstd::arithmetic::power::pow;
use vstd::arithmetic::power2::pow2;
use vstd::arithmetic::div_mod::*;
use vstd::arithmetic::mul::*;

verus! {

/// `b^e mod p`, the value that exponentiation must produce.
pub open spec fn pow_mod(b: int, e: nat, p: int) -> int {
    pow(b, e) % p
}

/// Field addition on representatives.
pub open spec fn fa(x: int, y: int, p: int) -> int {
    (x + y) % p
}

/// Field subtraction on representatives.
pub open spec fn fs(x: int, y: int, p: int) -> int {
    (x - y) % p
}

/// Field multiplication on representatives.
pub open spec fn fm(x: int, y: int, p: int) -> int {
    (x * y) % p
}

/// Every nonzero element times its inverse is one.
pub open spec fn inverses_correct<F: Field>() -> bool {
    forall|v: int| 0 < v < F::p() ==> #[trigger] fm(v, F::inv_val(v), F::p()) == 1
}

/// The canonical representatives of a sequence of field elements.
pub open spec fn vals<F: Field>(s: Seq<F>) -> Seq<int> {
    s.map_values(|x: F| x.val())
}

/// The interface of a prime field `GF(p)` with `2 < p < 2^64`.
pub trait Field: Sized + Copy {
    /// The characteristic `p`.
    spec fn p() -> int;

    /// The canonical representative of this element, in `0..p()`.
    spec fn val(&self) -> int;

    /// The representative of the fixed primitive `2^TWO_ADICITY`-th root of unity.
    spec fn prim_root_val() -> int;

    /// The representative that `inverse` returns for a nonzero element.
    spec fn inv_val(v: int) -> int;

    /// The 2-adicity of `p - 1`.
    spec fn two_adicity_spec() -> nat;

    proof fn lemma_modulus()
        ensures
            64 < Self::p() < 0x1_0000_0000_0000_0000,
            Self::p() % 2 == 1,
            0 < Self::prim_root_val() < Self::p(),
            Self::two_adicity_spec() <= 32,
            pow2(Self::two_adicity_spec()) < Self::p(),
    ;

    proof fn lemma_val_range(x: Self)
        ensures
            0 <= x.val() < Self::p(),
    ;

    /// The fixed root has order exactly `2^TWO_ADICITY`: its
    /// `2^(TWO_ADICITY - 1)`-th power is `-1`.
    proof fn lemma_root_order()
        ensures
            Self::two_adicity_spec() >= 1,
            pow_mod(Self::prim_root_val(), pow2((Self::two_adicity_spec() - 1) as nat), Self::p()) == Self::p() - 1,
    ;

    /// `p` is prime: the field has no zero divisors, and `inverse` gives
    /// the inverse of every nonzero element.
    proof fn lemma_prime_field()
        ensures
            forall|a: int, b: int| 0 < a < Self::p() && 0 < b < Self::p() ==> #[trigger] ((a * b) % Self::p()) != 0,
            forall|v: int| 0 < v < Self::p() ==> #[trigger] fm(v, Self::inv_val(v), Self::p()) == 1,
    ;

    fn two_adicity() -> (r: u32)
        ensures
            r == Self::two_adicity_spec(),
    ;

    fn zero() -> (r: Self)
        ensures
            r.val() == 0,
    ;

    fn one() -> (r: Self)
        ensures
            r.val() == 1,
    ;

    fn from_u64(x: u64) -> (r: Self)
        ensures
            r.val() == x as int % Self::p(),
    ;

    fn modulus() -> (r: u64)
        ensures
            r == Self::p(),
    ;

    fn to_canonical_u64(&self) -> (r: u64)
        ensures
            r == self.val(),
    ;

    fn fadd(self, rhs: Self) -> (r: Self)
        ensures
            r.val() == (self.val() + rhs.val()) % Self::p(),
    ;

    fn fsub(self, rhs: Self) -> (r: Self)
        ensures
            r.val() == (self.val() - rhs.val()) % Self::p(),
    ;

    fn fmul(self, rhs: Self) -> (r: Self)
        ensures
            r.val() == (self.val() * rhs.val()) % Self::p(),
    ;

    fn fneg(self) -> (r: Self)
        ensures
            r.val() == (0 - self.val()) % Self::p(),
    ;

    fn inverse(&self) -> (r: Option<Self>)
        ensures
            r is Some <==> self.val() != 0,
            r matches Some(y) ==> y.val() == Self::inv_val(self.val()),
    ;

    fn primitive_root_of_unity() -> (r: Self)
        ensures
            r.val() == Self::prim_root_val(),
    ;

    /// Is this element equal to the zero element?
    fn is_zero(&self) -> (r: bool)
        ensures
            r == (self.val() == 0),
    {
        self.to_canonical_u64() == 0
    }

    /// Do the two elements represent the same field value?
    fn feq(&self, other: &Self) -> (r: bool)
        ensures
            r == (self.val() == other.val()),
    {
        self.to_canonical_u64() == other.to_canonical_u64()
    }

    /// Square-and-multiply exponentiation.
    fn pow(&self, exp: u64) -> (r: Self)
        ensures
            r.val() == pow_mod(self.val(), exp as nat, Self::p()),
    {
        proof {
            Self::lemma_modulus();
            Self::lemma_val_range(*self);
        }
        let mut base = *self;
        let mut e = exp;
        let mut acc = Self::one();
        proof {
            lemma_small_mod(1, Self::p() as nat);
            vstd::arithmetic::power::lemma_pow0(base.val());
        }
        while e > 0
            invariant
                Self::p() > 64,
                0 <= acc.val() < Self::p(),
                0 <= base.val() < Self::p(),
                (acc.val() * pow(base.val(), e as nat)) % Self::p() == pow_mod(self.val(), exp as nat, Self::p()),
            decreases e,
        {
            proof {
                Self::lemma_val_range(acc);
                Self::lemma_val_range(base);
            }
            let ghost a0 = acc.val();
            let ghost b0 = base.val();
            let ghost e0 = e as nat;
            if e & 1 == 1 {
                acc = acc.fmul(base);
                proof {
                    assert(e % 2 == 1) by (bit_vector)
                        requires e & 1 == 1;
                    lemma_pow_step_odd(a0, b0, e0, Self::p());
                }
            } else {
                proof {
                    assert(e % 2 == 0) by (bit_vector)
                        requires e & 1 != 1;
                }
            }
            let ghost a1 = acc.val();
            base = base.fmul(base);
            let ghost eo = e;
            e = e >> 1;
            proof {
                Self::lemma_val_range(acc);
                assert(e == eo / 2) by (bit_vector)
                    requires e == eo >> 1;
                lemma_pow_step_square(a1, b0, e0, Self::p());
            }
        }
        proof {
            vstd::arithmetic::power::lemma_pow0(base.val());
            lemma_small_mod(acc.val() as nat, Self::p() as nat);
        }
        acc
    }

    /// A primitive `2^log_n`-th root of unity: the fixed primitive root
    /// squared `TWO_ADICITY - log_n` times.
    fn root_of_unity(log_n: u32) -> (r: Self)
        requires
            log_n <= Self::two_adicity_spec(),
        ensures
            r.val() == pow_mod(
                Self::prim_root_val(),
                pow2((Self::two_adicity_spec() - log_n) as nat),
                Self::p(),
            ),
    {
        proof {
            Self::lemma_modulus();
        }
        let mut root = Self::primitive_root_of_unity();
        let steps = Self::two_adicity() - log_n;
        let mut i: u32 = 0;
        proof {
            vstd::arithmetic::power2::lemma2_to64();
            vstd::arithmetic::power::lemma_pow1(Self::prim_root_val());
            lemma_small_mod(Self::prim_root_val() as nat, Self::p() as nat);
        }
        while i < steps
            invariant
                Self::p() > 2,
                0 <= Self::prim_root_val() < Self::p(),
                i <= steps,
                steps == Self::two_adicity_spec() - log_n,
                root.val() == pow_mod(Self::prim_root_val(), pow2(i as nat), Self::p()),
            decreases steps - i,
        {
            let ghost before = root.val();
            root = root.fmul(root);
            proof {
                lemma_square_pow2_mod(Self::prim_root_val(), i as nat, Self::p());
            }
            i = i + 1;
        }
        root
    }
}

/// Odd exponent step of square-and-multiply.
pub proof fn lemma_pow_step_odd(a: int, b: int, e: nat, p: int)
    requires
        p > 0,
        e % 2 == 1,
    ensures
        (((a * b) % p) * pow(b, (e - 1) as nat)) % p == (a * pow(b, e)) % p,
{
    let e1 = (e - 1) as nat;
    vstd::arithmetic::power::lemma_pow_adds(b, 1, e1);
    vstd::arithmetic::power::lemma_pow1(b);
    lemma_mul_mod_noop_left(a * b, pow(b, e1), p);
    lemma_mul_is_associative(a, b, pow(b, e1));
}

/// Squaring step of square-and-multiply: the exponent halves, the base squares.
pub proof fn lemma_pow_step_square(a: int, b: int, e: nat, p: int)
    requires
        p > 0,
    ensures
        (a * pow((b * b) % p, e / 2)) % p == (a * pow(b, (e - e % 2) as nat)) % p,
{
    let h = e / 2;
    assert((e - e % 2) as nat == 2 * h) by {
        lemma_fundamental_div_mod(e as int, 2);
    }
    vstd::arithmetic::power::lemma_pow_mod_noop(b * b, h, p);
    vstd::arithmetic::power::lemma_pow_multiplies(b, 2, h);
    vstd::arithmetic::power::lemma_square_is_pow2(b);
    lemma_mul_mod_noop_right(a, pow((b * b) % p, h), p);
    lemma_mul_mod_noop_right(a, pow(b * b, h), p);
}

/// Squaring `b^(2^i)` gives `b^(2^(i+1))`, modulo `p`.
pub proof fn lemma_square_pow2_mod(b: int, i: nat, p: int)
    requires
        p > 0,
    ensures
        (pow_mod(b, pow2(i), p) * pow_mod(b, pow2(i), p)) % p == pow_mod(b, pow2(i + 1), p),
{
    let x = pow(b, pow2(i));
    lemma_mul_mod_noop(x, x, p);
    vstd::arithmetic::power::lemma_pow_adds(b, pow2(i), pow2(i));
    vstd::arithmetic::power2::lemma_pow2_unfold(i + 1);
}

/// One more squaring: from `b^(2^i) = x` and `x^2 = y` to `b^(2^(i+1)) = y`, modulo `p`.
pub proof fn lemma_square_chain(b: int, i: nat, x: int, y: int, p: int)
    requires
        p > 0,
        pow_mod(b, pow2(i), p) == x,
        (x * x) % p == y,
    ensures
        pow_mod(b, pow2(i + 1), p) == y,
{
    lemma_square_pow2_mod(b, i, p);
}

/// `b^(2^0) = b` for a reduced `b`.
pub proof fn lemma_chain_start(b: int, p: int)
    requires
        0 <= b < p,
    ensures
        pow_mod(b, pow2(0), p) == b,
{
    vstd::arithmetic::power2::lemma2_to64();
    vstd::arithmetic::power::lemma_pow1(b);
    lemma_small_mod(b as nat, p as nat);
}

/// Distinct canonical representatives differ by a nonzero element.
pub proof fn lemma_nonzero_diff<F: Field>(a: int, b: int)
    requires
        0 <= a < F::p(),
        0 <= b < F::p(),
        a != b,
    ensures
        (a - b) % F::p() != 0,
{
    F::lemma_modulus();
    if a > b {
        lemma_small_mod((a - b) as nat, F::p() as nat);
    } else {
        lemma_mod_add_multiples_vanish(a - b, F::p());
        lemma_small_mod((a - b + F::p()) as nat, F::p() as nat);
    }
}

} // verus!
