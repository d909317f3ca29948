//! The Goldilocks field GF(p), p = 2^64 - 2^32 + 1.
//!
//! The modulus fits a machine word, and p - 1 = 2^32 * 3 * 5 * 17 * 257 * 65537
//! gives a 2-adicity of 32: FFT domains of up to 2^32 points.

use vstd::prelude::*;
use vstd::arithmetic::div_mod::*;
use vstd::arithmetic::mul::*;
use crate::field::{Field, pow_mod};

verus! {

/// The Goldilocks prime.
pub const MODULUS: u64 = 0xFFFF_FFFF_0000_0001;

/// A primitive 2^32-th root of unity.
pub const ROOT_OF_UNITY_32: u64 = 1_753_635_133_440_165_772;

/// An element of the Goldilocks field, stored as its representative in `0..p`.
#[derive(Copy, Clone, PartialEq, Eq, Hash, Debug)]
pub struct Goldilocks(u64);

impl Goldilocks {
    #[verifier::type_invariant]
    spec fn canonical(self) -> bool {
        self.0 < 0xFFFF_FFFF_0000_0001
    }

    /// Constructs an element from any `u64`, reducing mod p.
    pub fn new(value: u64) -> (r: Goldilocks)
        ensures
            r.val() == value as int % 0xFFFF_FFFF_0000_0001,
    {
        if value >= MODULUS {
            proof {
                lemma_mod_sub_multiples_vanish(value as int, MODULUS as int);
                lemma_small_mod((value - MODULUS) as nat, MODULUS as nat);
            }
            Goldilocks(value - MODULUS)
        } else {
            proof {
                lemma_small_mod(value as nat, MODULUS as nat);
            }
            Goldilocks(value)
        }
    }

    /// The raw representative in `0..p`.
    pub fn value(&self) -> (r: u64)
        ensures
            r == self.val(),
            r < MODULUS,
    {
        proof {
            use_type_invariant(self);
            lemma_small_mod(self.0 as nat, MODULUS as nat);
        }
        self.0
    }

    fn mulmod(a: u64, b: u64) -> (r: u64)
        ensures
            r == (a as int * b as int) % MODULUS as int,
    {
        proof {
            lemma_mul_upper_bound(a as int, u64::MAX as int, b as int, u64::MAX as int);
        }
        ((a as u128 * b as u128) % MODULUS as u128) as u64
    }

    fn addmod(a: u64, b: u64) -> (r: u64)
        ensures
            r == (a as int + b as int) % MODULUS as int,
    {
        ((a as u128 + b as u128) % MODULUS as u128) as u64
    }

    fn submod(a: u64, b: u64) -> (r: u64)
        requires
            a < MODULUS,
            b < MODULUS,
        ensures
            r == (a as int - b as int) % MODULUS as int,
    {
        if a >= b {
            proof {
                lemma_small_mod((a - b) as nat, MODULUS as nat);
            }
            a - b
        } else {
            proof {
                lemma_mod_add_multiples_vanish(a as int - b as int, MODULUS as int);
                lemma_small_mod((MODULUS - (b - a)) as nat, MODULUS as nat);
            }
            MODULUS - (b - a)
        }
    }
}

impl Field for Goldilocks {
    open spec fn p() -> int {
        0xFFFF_FFFF_0000_0001
    }

    closed spec fn val(&self) -> int {
        self.0 as int % 0xFFFF_FFFF_0000_0001
    }

    open spec fn prim_root_val() -> int {
        1_753_635_133_440_165_772
    }

    open spec fn inv_val(v: int) -> int {
        pow_mod(v, (0xFFFF_FFFF_0000_0001 - 2) as nat, 0xFFFF_FFFF_0000_0001)
    }

    open spec fn two_adicity_spec() -> nat {
        32
    }

    proof fn lemma_modulus() {
        vstd::arithmetic::power2::lemma2_to64();
        assert(Goldilocks::prim_root_val() == 1_753_635_133_440_165_772);
        assert(Goldilocks::two_adicity_spec() == 32);
    }

    proof fn lemma_val_range(x: Self) {
    }

    proof fn lemma_root_order() {
        let p: int = 0xFFFF_FFFF_0000_0001;
        let g: int = 1_753_635_133_440_165_772;
        crate::field::lemma_chain_start(g, p);
        crate::field::lemma_square_chain(g, 0, 1753635133440165772, 4614640910117430873, p);
        crate::field::lemma_square_chain(g, 1, 4614640910117430873, 9123114210336311365, p);
        crate::field::lemma_square_chain(g, 2, 9123114210336311365, 16116352524544190054, p);
        crate::field::lemma_square_chain(g, 3, 16116352524544190054, 6414415596519834757, p);
        crate::field::lemma_square_chain(g, 4, 6414415596519834757, 1213594585890690845, p);
        crate::field::lemma_square_chain(g, 5, 1213594585890690845, 17096174751763063430, p);
        crate::field::lemma_square_chain(g, 6, 17096174751763063430, 5456943929260765144, p);
        crate::field::lemma_square_chain(g, 7, 5456943929260765144, 9713644485405565297, p);
        crate::field::lemma_square_chain(g, 8, 9713644485405565297, 16905767614792059275, p);
        crate::field::lemma_square_chain(g, 9, 16905767614792059275, 5416168637041100469, p);
        crate::field::lemma_square_chain(g, 10, 5416168637041100469, 17654865857378133588, p);
        crate::field::lemma_square_chain(g, 11, 17654865857378133588, 3511170319078647661, p);
        crate::field::lemma_square_chain(g, 12, 3511170319078647661, 18146160046829613826, p);
        crate::field::lemma_square_chain(g, 13, 18146160046829613826, 9306717745644682924, p);
        crate::field::lemma_square_chain(g, 14, 9306717745644682924, 12380578893860276750, p);
        crate::field::lemma_square_chain(g, 15, 12380578893860276750, 6115771955107415310, p);
        crate::field::lemma_square_chain(g, 16, 6115771955107415310, 17776499369601055404, p);
        crate::field::lemma_square_chain(g, 17, 17776499369601055404, 16207902636198568418, p);
        crate::field::lemma_square_chain(g, 18, 16207902636198568418, 1532612707718625687, p);
        crate::field::lemma_square_chain(g, 19, 1532612707718625687, 17492915097719143606, p);
        crate::field::lemma_square_chain(g, 20, 17492915097719143606, 455906449640507599, p);
        crate::field::lemma_square_chain(g, 21, 455906449640507599, 11353340290879379826, p);
        crate::field::lemma_square_chain(g, 22, 11353340290879379826, 1803076106186727246, p);
        crate::field::lemma_square_chain(g, 23, 1803076106186727246, 13797081185216407910, p);
        crate::field::lemma_square_chain(g, 24, 13797081185216407910, 17870292113338400769, p);
        crate::field::lemma_square_chain(g, 25, 17870292113338400769, 549755813888, p);
        crate::field::lemma_square_chain(g, 26, 549755813888, 70368744161280, p);
        crate::field::lemma_square_chain(g, 27, 70368744161280, 17293822564807737345, p);
        crate::field::lemma_square_chain(g, 28, 17293822564807737345, 18446744069397807105, p);
        crate::field::lemma_square_chain(g, 29, 18446744069397807105, 281474976710656, p);
        crate::field::lemma_square_chain(g, 30, 281474976710656, 18446744069414584320, p);
        assert(((32 - 1) as nat) == 31);
    }

    proof fn lemma_prime_field() {
        crate::goldilocks_prime::lemma_goldilocks_products_nonzero();
        crate::goldilocks_prime::lemma_goldilocks_fermat();
    }

    fn two_adicity() -> (r: u32) {
        32
    }

    fn zero() -> (r: Self) {
        Goldilocks(0)
    }

    fn one() -> (r: Self) {
        Goldilocks(1)
    }

    fn from_u64(x: u64) -> (r: Self) {
        Goldilocks::new(x)
    }

    fn modulus() -> (r: u64) {
        MODULUS
    }

    fn to_canonical_u64(&self) -> (r: u64) {
        self.value()
    }

    fn fadd(self, rhs: Self) -> (r: Self) {
        proof {
            use_type_invariant(&self);
            use_type_invariant(&rhs);
            lemma_small_mod(self.0 as nat, MODULUS as nat);
            lemma_small_mod(rhs.0 as nat, MODULUS as nat);
        }
        Goldilocks(Self::addmod(self.0, rhs.0))
    }

    fn fsub(self, rhs: Self) -> (r: Self) {
        proof {
            use_type_invariant(&self);
            use_type_invariant(&rhs);
            lemma_small_mod(self.0 as nat, MODULUS as nat);
            lemma_small_mod(rhs.0 as nat, MODULUS as nat);
        }
        let d = Self::submod(self.0, rhs.0);
        proof {
            lemma_small_mod(d as nat, MODULUS as nat);
        }
        Goldilocks(d)
    }

    fn fmul(self, rhs: Self) -> (r: Self) {
        proof {
            use_type_invariant(&self);
            use_type_invariant(&rhs);
            lemma_small_mod(self.0 as nat, MODULUS as nat);
            lemma_small_mod(rhs.0 as nat, MODULUS as nat);
        }
        let m = Self::mulmod(self.0, rhs.0);
        proof {
            lemma_small_mod(m as nat, MODULUS as nat);
        }
        Goldilocks(m)
    }

    fn fneg(self) -> (r: Self) {
        proof {
            use_type_invariant(&self);
            lemma_small_mod(self.0 as nat, MODULUS as nat);
        }
        if self.0 == 0 {
            self
        } else {
            proof {
                lemma_mod_add_multiples_vanish(0 - self.0, MODULUS as int);
                lemma_small_mod((MODULUS - self.0) as nat, MODULUS as nat);
            }
            Goldilocks(MODULUS - self.0)
        }
    }

    fn inverse(&self) -> (r: Option<Self>) {
        proof {
            use_type_invariant(self);
            lemma_small_mod(self.0 as nat, MODULUS as nat);
        }
        if self.0 == 0 {
            None
        } else {
            Some(self.pow(MODULUS - 2))
        }
    }

    fn primitive_root_of_unity() -> (r: Self) {
        proof {
            lemma_small_mod(ROOT_OF_UNITY_32 as nat, MODULUS as nat);
        }
        Goldilocks(ROOT_OF_UNITY_32)
    }
}

impl std::ops::Add for Goldilocks {
    type Output = Goldilocks;

    fn add(self, rhs: Goldilocks) -> (r: Goldilocks) {
        let r = self.fadd(rhs);
        proof {
            use_type_invariant(&r);
            use_type_invariant(&self);
            use_type_invariant(&rhs);
        }
        r
    }
}

impl vstd::std_specs::ops::AddSpecImpl for Goldilocks {
    open spec fn obeys_add_spec() -> bool {
        true
    }

    open spec fn add_req(self, rhs: Goldilocks) -> bool {
        true
    }

    closed spec fn add_spec(self, rhs: Goldilocks) -> Goldilocks {
        Goldilocks(((self.0 + rhs.0) % 0xFFFF_FFFF_0000_0001) as u64)
    }
}


impl std::ops::Sub for Goldilocks {
    type Output = Goldilocks;

    fn sub(self, rhs: Goldilocks) -> (r: Goldilocks) {
        let r = self.fsub(rhs);
        proof {
            use_type_invariant(&r);
            use_type_invariant(&self);
            use_type_invariant(&rhs);
        }
        r
    }
}

impl vstd::std_specs::ops::SubSpecImpl for Goldilocks {
    open spec fn obeys_sub_spec() -> bool {
        true
    }

    open spec fn sub_req(self, rhs: Goldilocks) -> bool {
        true
    }

    closed spec fn sub_spec(self, rhs: Goldilocks) -> Goldilocks {
        Goldilocks(((self.0 - rhs.0) % 0xFFFF_FFFF_0000_0001) as u64)
    }
}

impl std::ops::Mul for Goldilocks {
    type Output = Goldilocks;

    fn mul(self, rhs: Goldilocks) -> (r: Goldilocks) {
        let r = self.fmul(rhs);
        proof {
            use_type_invariant(&r);
            use_type_invariant(&self);
            use_type_invariant(&rhs);
        }
        r
    }
}

impl vstd::std_specs::ops::MulSpecImpl for Goldilocks {
    open spec fn obeys_mul_spec() -> bool {
        true
    }

    open spec fn mul_req(self, rhs: Goldilocks) -> bool {
        true
    }

    closed spec fn mul_spec(self, rhs: Goldilocks) -> Goldilocks {
        Goldilocks(((self.0 * rhs.0) % 0xFFFF_FFFF_0000_0001) as u64)
    }
}


impl std::ops::Neg for Goldilocks {
    type Output = Goldilocks;

    fn neg(self) -> (r: Goldilocks) {
        let r = self.fneg();
        proof {
            use_type_invariant(&r);
            use_type_invariant(&self);
        }
        r
    }
}

impl vstd::std_specs::ops::NegSpecImpl for Goldilocks {
    open spec fn obeys_neg_spec() -> bool {
        true
    }

    open spec fn neg_req(self) -> bool {
        true
    }

    closed spec fn neg_spec(self) -> Goldilocks {
        Goldilocks(((0 - self.0) % 0xFFFF_FFFF_0000_0001) as u64)
    }
}

impl std::ops::AddAssign for Goldilocks {
    fn add_assign(&mut self, rhs: Goldilocks)
        ensures
            final(self).val() == (old(self).val() + rhs.val()) % Goldilocks::p(),
    {
        *self = self.fadd(rhs);
    }
}

impl std::ops::SubAssign for Goldilocks {
    fn sub_assign(&mut self, rhs: Goldilocks)
        ensures
            final(self).val() == (old(self).val() - rhs.val()) % Goldilocks::p(),
    {
        *self = self.fsub(rhs);
    }
}

impl std::ops::MulAssign for Goldilocks {
    fn mul_assign(&mut self, rhs: Goldilocks)
        ensures
            final(self).val() == (old(self).val() * rhs.val()) % Goldilocks::p(),
    {
        *self = self.fmul(rhs);
    }
}

} // verus!
