//! The toy field GF(97).
//!
//! 97 is prime and 96 = 2^5 * 3, so the field has a multiplicative subgroup
//! of order 32: FFT domains of up to 32 points.

use vstd::prelude::*;
use vstd::arithmetic::div_mod::*;
use vstd::arithmetic::mul::*;
use crate::field::{Field, pow_mod};

verus! {

/// The modulus of the toy field.
pub const MODULUS: u64 = 97;

/// 5 generates the multiplicative group; 5^3 = 28 has order 32.
pub const ROOT_OF_UNITY_32: u64 = 28;

/// An element of GF(97), stored as its representative in `0..97`.
#[derive(Copy, Clone, PartialEq, Eq, Hash, Debug)]
pub struct ToyField(u64);

impl ToyField {
    #[verifier::type_invariant]
    spec fn canonical(self) -> bool {
        self.0 < 97
    }

    /// Constructs an element from any `u64`, reducing mod 97.
    pub fn new(value: u64) -> (r: ToyField)
        ensures
            r.val() == value as int % 97,
    {
        ToyField(value % MODULUS)
    }

    /// The raw representative in `0..97`.
    pub fn value(&self) -> (r: u64)
        ensures
            r == self.val(),
            r < 97,
    {
        proof {
            use_type_invariant(self);
        }
        self.0
    }
}

/// `w` is an inverse of `v` in GF(97).
pub open spec fn is_toy_inverse(v: int, w: int) -> bool {
    0 < w < 97 && (v * w) % 97 == 1
}

/// The unique `w` in `1..97` with `v * w = 1 (mod 97)`, for `v` in `1..97`.
pub open spec fn toy_inverse_of(v: int) -> int {
    choose|w: int| is_toy_inverse(v, w)
}

/// 97 has no divisor strictly between 1 and 97.
pub proof fn lemma_97_is_prime()
    ensures
        forall|d: u8| 1 < d < 97 ==> #[trigger] (97u8 % d) != 0,
{
    assert(forall|d: u8| 1 < d < 97 ==> #[trigger] (97u8 % d) != 0) by (bit_vector);
}

/// `d` divides `x`.
pub open spec fn divides(d: int, x: int) -> bool {
    x % d == 0
}

/// A common divisor of `a` and `b` divides `a - q * b`.
proof fn lemma_divides_comb(a: int, b: int, q: int, d: int)
    requires
        d > 0,
        a % d == 0,
        b % d == 0,
    ensures
        (a - q * b) % d == 0,
{
    lemma_fundamental_div_mod(a, d);
    lemma_fundamental_div_mod(b, d);
    let ka = a / d;
    let kb = b / d;
    assert(a - q * b == d * (ka - q * kb)) by {
        lemma_mul_is_associative(q, d, kb);
        lemma_mul_is_commutative(q, d);
        lemma_mul_is_associative(d, q, kb);
        lemma_mul_is_distributive_sub(d, ka, q * kb);
    }
    lemma_mod_multiples_basic(ka - q * kb, d);
    lemma_mul_is_commutative(d, ka - q * kb);
}

/// A positive divisor of a positive number is at most that number.
proof fn lemma_divisor_le(a: int, d: int)
    requires
        a > 0,
        d > 0,
        a % d == 0,
    ensures
        d <= a,
{
    lemma_fundamental_div_mod(a, d);
    if a / d <= 0 {
        lemma_mul_inequality(a / d, 0, d);
        lemma_mul_is_commutative(d, a / d);
    } else {
        lemma_mul_inequality(1, a / d, d);
        lemma_mul_is_commutative(d, a / d);
    }
}

/// One step of the extended Euclidean algorithm keeps `v * s = r (mod 97)`.
proof fn lemma_bezout_step(v: int, old_s: int, s: int, old_r: int, r: int, q: int, qs: int, new_s: int)
    requires
        (v * old_s) % 97 == old_r % 97,
        (v * s) % 97 == r % 97,
        qs == ((q % 97) * s) % 97,
        new_s == (old_s + 97 - qs) % 97,
    ensures
        (v * new_s) % 97 == (old_r - q * r) % 97,
{
    let y = old_s + 97 - qs;
    let x = old_s - qs;
    lemma_mul_mod_noop_right(v, y, 97);
    assert(v * y == 97 * v + v * x) by (nonlinear_arith)
        requires y == x + 97;
    lemma_mod_multiples_vanish(v, v * x, 97);
    assert(v * x == v * old_s - v * qs) by (nonlinear_arith)
        requires x == old_s - qs;
    lemma_sub_mod_noop(v * old_s, v * qs, 97);
    // (v * qs) % 97 == (q * r) % 97
    lemma_mul_mod_noop_right(v, (q % 97) * s, 97);
    lemma_mul_mod_noop_left(q, s, 97);
    assert(v * ((q % 97) * s) == (q % 97) * (v * s)) by (nonlinear_arith);
    assert(v * (q * s) == q * (v * s)) by (nonlinear_arith);
    lemma_mul_mod_noop_left(q, v * s, 97);
    lemma_mul_mod_noop_right(q % 97, v * s, 97);
    lemma_mul_mod_noop_right(q, v * s, 97);
    lemma_mul_mod_noop_right(q, r, 97);
    lemma_sub_mod_noop(old_r, q * r, 97);
}

/// The extended Euclidean algorithm on `(v, 97)`, keeping the Bezout
/// coefficient reduced mod 97.  Returns `s` with `v * s = gcd(v, 97) (mod 97)`.
fn toy_ext_euclid(v: u64) -> (r: u64)
    requires
        0 < v < 97,
    ensures
        r < 97,
        (v * r) % 97 == 1,
{
    let mut old_r: u64 = v;
    let mut r: u64 = 97;
    let mut old_s: u64 = 1;
    let mut s: u64 = 0;
    proof {
        lemma_small_mod(v as nat, 97);
    }
    while r != 0
        invariant
            0 < v < 97,
            old_r <= 97,
            r <= 97,
            old_r > 0,
            old_s < 97,
            s < 97,
            (v * old_s) % 97 == old_r % 97,
            (v * s) % 97 == r % 97,
            forall|d: int| d > 0 ==> ((divides(d, old_r as int) && #[trigger] divides(d, r as int)) <==> (divides(d, v as int) && divides(d, 97))),
        decreases r,
    {
        let q = old_r / r;
        let new_r = old_r % r;
        // new_s = old_s - q * s (mod 97)
        proof {
            lemma_mul_upper_bound((q % 97) as int, 96, s as int, 96);
        }
        let qs = (q % 97) * s % 97;
        let new_s = (old_s + 97 - qs) % 97;
        proof {
            lemma_fundamental_div_mod(old_r as int, r as int);
            lemma_mul_is_commutative(r as int, q as int);
            assert(new_r == old_r - q * r);
            assert forall|d: int| d > 0 implies ((divides(d, r as int) && #[trigger] divides(d, new_r as int)) <==> (divides(d, v as int) && divides(d, 97))) by {
                if r as int % d == 0 && new_r as int % d == 0 {
                    lemma_divides_comb(new_r as int, r as int, -q, d);
                    assert(new_r - (-q) * r == old_r as int) by (nonlinear_arith)
                        requires new_r == old_r - q * r;
                }
                if old_r as int % d == 0 && r as int % d == 0 {
                    lemma_divides_comb(old_r as int, r as int, q as int, d);
                }
            }
            lemma_bezout_step(v as int, old_s as int, s as int, old_r as int, r as int, q as int, qs as int, new_s as int);
        }
        old_r = r;
        r = new_r;
        old_s = s;
        s = new_s;
    }
    proof {
        // old_r divides v and 97, so old_r == 1 since 97 is prime and v < 97.
        assert(old_r as int % old_r as int == 0) by {
            lemma_mod_self_0(old_r as int);
        }
        assert(0int % old_r as int == 0) by {
            lemma_small_mod(0, old_r as nat);
        }
        assert(divides(old_r as int, old_r as int) && divides(old_r as int, 0));
        assert(v as int % old_r as int == 0 && 97int % old_r as int == 0);
        lemma_divisor_le(v as int, old_r as int);
        if old_r > 1 {
            lemma_97_is_prime();
            let d = old_r as u8;
            assert(97u8 % d != 0);
            assert(97u8 % d == 97int % old_r as int);
        }
        lemma_small_mod(1, 97);
    }
    old_s
}

impl Field for ToyField {
    open spec fn p() -> int {
        97
    }

    closed spec fn val(&self) -> int {
        self.0 as int % 97
    }

    open spec fn prim_root_val() -> int {
        28
    }

    open spec fn inv_val(v: int) -> int {
        toy_inverse_of(v)
    }

    open spec fn two_adicity_spec() -> nat {
        5
    }

    proof fn lemma_modulus() {
        vstd::arithmetic::power2::lemma2_to64();
        assert(ToyField::prim_root_val() == 28);
        assert(ToyField::two_adicity_spec() == 5);
    }

    proof fn lemma_val_range(x: Self) {
    }

    proof fn lemma_root_order() {
        crate::field::lemma_chain_start(28, 97);
        crate::field::lemma_square_chain(28, 0, 28, 8, 97);
        crate::field::lemma_square_chain(28, 1, 8, 64, 97);
        crate::field::lemma_square_chain(28, 2, 64, 22, 97);
        crate::field::lemma_square_chain(28, 3, 22, 96, 97);
        assert(((5 - 1) as nat) == 4);
    }

    proof fn lemma_prime_field() {
        lemma_toy_products_nonzero();
        lemma_toy_inverse_table();
    }

    fn two_adicity() -> (r: u32) {
        5
    }

    fn zero() -> (r: Self) {
        ToyField(0)
    }

    fn one() -> (r: Self) {
        ToyField(1)
    }

    fn from_u64(x: u64) -> (r: Self) {
        ToyField::new(x)
    }

    fn modulus() -> (r: u64) {
        MODULUS
    }

    fn to_canonical_u64(&self) -> (r: u64) {
        self.value()
    }

    fn fadd(self, rhs: Self) -> (r: Self) {
        proof {
            use_type_invariant(&self);
            use_type_invariant(&rhs);
        }
        ToyField((self.0 + rhs.0) % MODULUS)
    }

    fn fsub(self, rhs: Self) -> (r: Self) {
        proof {
            use_type_invariant(&self);
            use_type_invariant(&rhs);
            lemma_mod_add_multiples_vanish(self.0 - rhs.0, 97);
        }
        // add MODULUS before subtracting to stay in unsigned arithmetic
        ToyField((self.0 + MODULUS - rhs.0) % MODULUS)
    }

    fn fmul(self, rhs: Self) -> (r: Self) {
        proof {
            use_type_invariant(&self);
            use_type_invariant(&rhs);
            lemma_mul_upper_bound(self.0 as int, 96, rhs.0 as int, 96);
        }
        ToyField((self.0 * rhs.0) % MODULUS)
    }

    fn fneg(self) -> (r: Self) {
        proof {
            use_type_invariant(&self);
        }
        if self.0 == 0 {
            self
        } else {
            proof {
                lemma_mod_add_multiples_vanish(0 - self.0, 97);
            }
            ToyField(MODULUS - self.0)
        }
    }

    fn inverse(&self) -> (r: Option<Self>) {
        proof {
            use_type_invariant(self);
        }
        if self.0 == 0 {
            return None;
        }
        let w = toy_ext_euclid(self.0);
        proof {
            let v = self.0 as int;
            assert(is_toy_inverse(v, w as int));
            let c = toy_inverse_of(v);
            assert(is_toy_inverse(v, c));
            lemma_toy_inverse_unique(v, w as int, c);
        }
        Some(ToyField(w))
    }

    fn primitive_root_of_unity() -> (r: Self) {
        ToyField(ROOT_OF_UNITY_32)
    }
}

impl std::ops::Add for ToyField {
    type Output = ToyField;

    fn add(self, rhs: ToyField) -> (r: ToyField) {
        let r = self.fadd(rhs);
        proof {
            use_type_invariant(&r);
            use_type_invariant(&self);
            use_type_invariant(&rhs);
        }
        r
    }
}

impl vstd::std_specs::ops::AddSpecImpl for ToyField {
    open spec fn obeys_add_spec() -> bool {
        true
    }

    open spec fn add_req(self, rhs: ToyField) -> bool {
        true
    }

    closed spec fn add_spec(self, rhs: ToyField) -> ToyField {
        ToyField(((self.0 + rhs.0) % 97) as u64)
    }
}


impl std::ops::Sub for ToyField {
    type Output = ToyField;

    fn sub(self, rhs: ToyField) -> (r: ToyField) {
        let r = self.fsub(rhs);
        proof {
            use_type_invariant(&r);
            use_type_invariant(&self);
            use_type_invariant(&rhs);
        }
        r
    }
}

impl vstd::std_specs::ops::SubSpecImpl for ToyField {
    open spec fn obeys_sub_spec() -> bool {
        true
    }

    open spec fn sub_req(self, rhs: ToyField) -> bool {
        true
    }

    closed spec fn sub_spec(self, rhs: ToyField) -> ToyField {
        ToyField(((self.0 - rhs.0) % 97) as u64)
    }
}

impl std::ops::Mul for ToyField {
    type Output = ToyField;

    fn mul(self, rhs: ToyField) -> (r: ToyField) {
        let r = self.fmul(rhs);
        proof {
            use_type_invariant(&r);
            use_type_invariant(&self);
            use_type_invariant(&rhs);
        }
        r
    }
}

impl vstd::std_specs::ops::MulSpecImpl for ToyField {
    open spec fn obeys_mul_spec() -> bool {
        true
    }

    open spec fn mul_req(self, rhs: ToyField) -> bool {
        true
    }

    closed spec fn mul_spec(self, rhs: ToyField) -> ToyField {
        ToyField(((self.0 * rhs.0) % 97) as u64)
    }
}


impl std::ops::Neg for ToyField {
    type Output = ToyField;

    fn neg(self) -> (r: ToyField) {
        let r = self.fneg();
        proof {
            use_type_invariant(&r);
            use_type_invariant(&self);
        }
        r
    }
}

impl vstd::std_specs::ops::NegSpecImpl for ToyField {
    open spec fn obeys_neg_spec() -> bool {
        true
    }

    open spec fn neg_req(self) -> bool {
        true
    }

    closed spec fn neg_spec(self) -> ToyField {
        ToyField(((0 - self.0) % 97) as u64)
    }
}

impl std::ops::AddAssign for ToyField {
    fn add_assign(&mut self, rhs: ToyField)
        ensures
            final(self).val() == (old(self).val() + rhs.val()) % ToyField::p(),
    {
        *self = self.fadd(rhs);
    }
}

impl std::ops::SubAssign for ToyField {
    fn sub_assign(&mut self, rhs: ToyField)
        ensures
            final(self).val() == (old(self).val() - rhs.val()) % ToyField::p(),
    {
        *self = self.fsub(rhs);
    }
}

impl std::ops::MulAssign for ToyField {
    fn mul_assign(&mut self, rhs: ToyField)
        ensures
            final(self).val() == (old(self).val() * rhs.val()) % ToyField::p(),
    {
        *self = self.fmul(rhs);
    }
}

/// Inverses in GF(97) are unique.
proof fn lemma_toy_inverse_unique(v: int, a: int, b: int)
    requires
        0 < v < 97,
        0 <= a < 97,
        0 <= b < 97,
        (v * a) % 97 == 1,
        (v * b) % 97 == 1,
    ensures
        a == b,
{
    // a = a * (v * b) = (a * v) * b = b  (mod 97)
    lemma_mul_mod_noop_right(a, v * b, 97);
    lemma_mul_mod_noop_left(v * a, b, 97);
    lemma_mul_is_associative(a, v, b);
    lemma_mul_is_commutative(a, v);
    lemma_small_mod(a as nat, 97);
    lemma_small_mod(b as nat, 97);
}


/// The toy field has no zero divisors.
pub proof fn lemma_toy_no_zero_divisors()
    ensures
        crate::fft::no_zero_divisors::<ToyField>(),
{
    lemma_toy_products_nonzero();
}

/// A product of two nonzero residues modulo 97 is nonzero.
proof fn lemma_toy_products_nonzero()
    ensures
        forall|a: int, b: int| 0 < a < 97 && 0 < b < 97 ==> #[trigger] ((a * b) % 97) != 0,
{
    assert forall|a: int, b: int| 0 < a < 97 && 0 < b < 97 implies #[trigger] ((a * b) % 97) != 0 by {
        let x = a as u16;
        let y = b as u16;
        assert(0 < x < 97 && 0 < y < 97 ==> (x * y) % 97 != 0) by (bit_vector);
        assert((x * y) as int == a * b) by (nonlinear_arith)
            requires x as int == a, y as int == b, 0 < a < 97, 0 < b < 97;
    }
}


/// Every nonzero element of the toy field times its inverse is one.
pub proof fn lemma_toy_inverses_correct()
    ensures
        crate::field::inverses_correct::<ToyField>(),
{
    lemma_toy_inverse_table();
}

/// Every nonzero residue modulo 97 times its entry in the inverse table is one.
proof fn lemma_toy_inverse_table()
    ensures
        forall|v: int| 0 < v < 97 ==> #[trigger] crate::field::fm(v, toy_inverse_of(v), 97) == 1,
{
    assert forall|v: int| 0 < v < 97 implies #[trigger] crate::field::fm(v, toy_inverse_of(v), 97) == 1 by {
        if v == 1 {
            assert(is_toy_inverse(1, 1));
        } else if v == 2 {
            assert(is_toy_inverse(2, 49));
        } else if v == 3 {
            assert(is_toy_inverse(3, 65));
        } else if v == 4 {
            assert(is_toy_inverse(4, 73));
        } else if v == 5 {
            assert(is_toy_inverse(5, 39));
        } else if v == 6 {
            assert(is_toy_inverse(6, 81));
        } else if v == 7 {
            assert(is_toy_inverse(7, 14));
        } else if v == 8 {
            assert(is_toy_inverse(8, 85));
        } else if v == 9 {
            assert(is_toy_inverse(9, 54));
        } else if v == 10 {
            assert(is_toy_inverse(10, 68));
        } else if v == 11 {
            assert(is_toy_inverse(11, 53));
        } else if v == 12 {
            assert(is_toy_inverse(12, 89));
        } else if v == 13 {
            assert(is_toy_inverse(13, 15));
        } else if v == 14 {
            assert(is_toy_inverse(14, 7));
        } else if v == 15 {
            assert(is_toy_inverse(15, 13));
        } else if v == 16 {
            assert(is_toy_inverse(16, 91));
        } else if v == 17 {
            assert(is_toy_inverse(17, 40));
        } else if v == 18 {
            assert(is_toy_inverse(18, 27));
        } else if v == 19 {
            assert(is_toy_inverse(19, 46));
        } else if v == 20 {
            assert(is_toy_inverse(20, 34));
        } else if v == 21 {
            assert(is_toy_inverse(21, 37));
        } else if v == 22 {
            assert(is_toy_inverse(22, 75));
        } else if v == 23 {
            assert(is_toy_inverse(23, 38));
        } else if v == 24 {
            assert(is_toy_inverse(24, 93));
        } else if v == 25 {
            assert(is_toy_inverse(25, 66));
        } else if v == 26 {
            assert(is_toy_inverse(26, 56));
        } else if v == 27 {
            assert(is_toy_inverse(27, 18));
        } else if v == 28 {
            assert(is_toy_inverse(28, 52));
        } else if v == 29 {
            assert(is_toy_inverse(29, 87));
        } else if v == 30 {
            assert(is_toy_inverse(30, 55));
        } else if v == 31 {
            assert(is_toy_inverse(31, 72));
        } else if v == 32 {
            assert(is_toy_inverse(32, 94));
        } else if v == 33 {
            assert(is_toy_inverse(33, 50));
        } else if v == 34 {
            assert(is_toy_inverse(34, 20));
        } else if v == 35 {
            assert(is_toy_inverse(35, 61));
        } else if v == 36 {
            assert(is_toy_inverse(36, 62));
        } else if v == 37 {
            assert(is_toy_inverse(37, 21));
        } else if v == 38 {
            assert(is_toy_inverse(38, 23));
        } else if v == 39 {
            assert(is_toy_inverse(39, 5));
        } else if v == 40 {
            assert(is_toy_inverse(40, 17));
        } else if v == 41 {
            assert(is_toy_inverse(41, 71));
        } else if v == 42 {
            assert(is_toy_inverse(42, 67));
        } else if v == 43 {
            assert(is_toy_inverse(43, 88));
        } else if v == 44 {
            assert(is_toy_inverse(44, 86));
        } else if v == 45 {
            assert(is_toy_inverse(45, 69));
        } else if v == 46 {
            assert(is_toy_inverse(46, 19));
        } else if v == 47 {
            assert(is_toy_inverse(47, 64));
        } else if v == 48 {
            assert(is_toy_inverse(48, 95));
        } else if v == 49 {
            assert(is_toy_inverse(49, 2));
        } else if v == 50 {
            assert(is_toy_inverse(50, 33));
        } else if v == 51 {
            assert(is_toy_inverse(51, 78));
        } else if v == 52 {
            assert(is_toy_inverse(52, 28));
        } else if v == 53 {
            assert(is_toy_inverse(53, 11));
        } else if v == 54 {
            assert(is_toy_inverse(54, 9));
        } else if v == 55 {
            assert(is_toy_inverse(55, 30));
        } else if v == 56 {
            assert(is_toy_inverse(56, 26));
        } else if v == 57 {
            assert(is_toy_inverse(57, 80));
        } else if v == 58 {
            assert(is_toy_inverse(58, 92));
        } else if v == 59 {
            assert(is_toy_inverse(59, 74));
        } else if v == 60 {
            assert(is_toy_inverse(60, 76));
        } else if v == 61 {
            assert(is_toy_inverse(61, 35));
        } else if v == 62 {
            assert(is_toy_inverse(62, 36));
        } else if v == 63 {
            assert(is_toy_inverse(63, 77));
        } else if v == 64 {
            assert(is_toy_inverse(64, 47));
        } else if v == 65 {
            assert(is_toy_inverse(65, 3));
        } else if v == 66 {
            assert(is_toy_inverse(66, 25));
        } else if v == 67 {
            assert(is_toy_inverse(67, 42));
        } else if v == 68 {
            assert(is_toy_inverse(68, 10));
        } else if v == 69 {
            assert(is_toy_inverse(69, 45));
        } else if v == 70 {
            assert(is_toy_inverse(70, 79));
        } else if v == 71 {
            assert(is_toy_inverse(71, 41));
        } else if v == 72 {
            assert(is_toy_inverse(72, 31));
        } else if v == 73 {
            assert(is_toy_inverse(73, 4));
        } else if v == 74 {
            assert(is_toy_inverse(74, 59));
        } else if v == 75 {
            assert(is_toy_inverse(75, 22));
        } else if v == 76 {
            assert(is_toy_inverse(76, 60));
        } else if v == 77 {
            assert(is_toy_inverse(77, 63));
        } else if v == 78 {
            assert(is_toy_inverse(78, 51));
        } else if v == 79 {
            assert(is_toy_inverse(79, 70));
        } else if v == 80 {
            assert(is_toy_inverse(80, 57));
        } else if v == 81 {
            assert(is_toy_inverse(81, 6));
        } else if v == 82 {
            assert(is_toy_inverse(82, 84));
        } else if v == 83 {
            assert(is_toy_inverse(83, 90));
        } else if v == 84 {
            assert(is_toy_inverse(84, 82));
        } else if v == 85 {
            assert(is_toy_inverse(85, 8));
        } else if v == 86 {
            assert(is_toy_inverse(86, 44));
        } else if v == 87 {
            assert(is_toy_inverse(87, 29));
        } else if v == 88 {
            assert(is_toy_inverse(88, 43));
        } else if v == 89 {
            assert(is_toy_inverse(89, 12));
        } else if v == 90 {
            assert(is_toy_inverse(90, 83));
        } else if v == 91 {
            assert(is_toy_inverse(91, 16));
        } else if v == 92 {
            assert(is_toy_inverse(92, 58));
        } else if v == 93 {
            assert(is_toy_inverse(93, 24));
        } else if v == 94 {
            assert(is_toy_inverse(94, 32));
        } else if v == 95 {
            assert(is_toy_inverse(95, 48));
        } else if v == 96 {
            assert(is_toy_inverse(96, 96));
        }
        let c = toy_inverse_of(v);
        assert(is_toy_inverse(v, c));
    }
}

} // verus!
