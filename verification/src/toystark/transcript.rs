//! A Fiat-Shamir transcript whose state is one 64-bit hash.

use vstd::prelude::*;
use crate::field::Field;
use crate::toystark::hash::{pair_hash, hash_pair};

verus! {

/// The state a transcript starts from before its domain separator.
pub open spec fn initial_state() -> u64 {
    0x517c_c1b7_2722_0a95u64
}

/// The constant hashed in to squeeze.
pub open spec fn squeeze_tag() -> u64 {
    0xC0FF_EE00_C0FF_EE00u64
}

/// The state after absorbing `values` in order into `state`.
pub open spec fn absorb_seq(state: u64, values: Seq<u64>) -> u64
    decreases values.len(),
{
    if values.len() == 0 {
        state
    } else {
        pair_hash(absorb_seq(state, values.drop_last()), values.last())
    }
}

/// The transcript: every absorb and squeeze hashes into the state.
pub struct Transcript {
    state: u64,
}

impl View for Transcript {
    type V = u64;

    closed spec fn view(&self) -> u64 {
        self.state
    }
}

impl Transcript {
    /// A transcript that has absorbed the domain separator.
    pub fn new(domain_separator: &[u64]) -> (r: Self)
        ensures
            r@ == absorb_seq(initial_state(), domain_separator@),
    {
        let mut state: u64 = 0x517c_c1b7_2722_0a95;
        let mut i: usize = 0;
        while i < domain_separator.len()
            invariant
                i <= domain_separator@.len(),
                state == absorb_seq(initial_state(), domain_separator@.subrange(0, i as int)),
            decreases domain_separator@.len() - i,
        {
            proof {
                assert(domain_separator@.subrange(0, i + 1).drop_last() =~= domain_separator@.subrange(0, i as int));
            }
            state = hash_pair(state, domain_separator[i]);
            i = i + 1;
        }
        proof {
            assert(domain_separator@.subrange(0, domain_separator@.len() as int) =~= domain_separator@);
        }
        Transcript { state }
    }

    /// Absorbs a 64-bit value.
    pub fn absorb(&mut self, value: u64)
        ensures
            final(self)@ == pair_hash(old(self)@, value),
    {
        self.state = hash_pair(self.state, value);
    }

    /// Absorbs a field element by its canonical value.
    pub fn absorb_field<F: Field>(&mut self, value: F)
        ensures
            final(self)@ == pair_hash(old(self)@, value.val() as u64),
    {
        self.absorb(value.to_canonical_u64());
    }

    /// Squeezes a 64-bit challenge; it becomes the new state.
    pub fn squeeze_u64(&mut self) -> (r: u64)
        ensures
            r == pair_hash(old(self)@, squeeze_tag()),
            final(self)@ == r,
    {
        self.state = hash_pair(self.state, 0xC0FF_EE00_C0FF_EE00);
        self.state
    }

    /// Squeezes a field element: the 64-bit challenge reduced into the field.
    pub fn squeeze_field<F: Field>(&mut self) -> (r: F)
        ensures
            r.val() == pair_hash(old(self)@, squeeze_tag()) as int % F::p(),
            final(self)@ == pair_hash(old(self)@, squeeze_tag()),
    {
        F::from_u64(self.squeeze_u64())
    }

    /// Squeezes an index below `bound`.
    pub fn squeeze_index(&mut self, bound: usize) -> (r: usize)
        requires
            bound > 0,
        ensures
            r == pair_hash(old(self)@, squeeze_tag()) as int % (bound as int),
            final(self)@ == pair_hash(old(self)@, squeeze_tag()),
    {
        (self.squeeze_u64() % (bound as u64)) as usize
    }
}

} // verus!
