//! The Fiat-Shamir transcript: a Poseidon duplex sponge.  Prover and
//! verifier absorb the same messages and so squeeze the same challenges.

use vstd::prelude::*;
use crate::field::{Field, vals, fa};
use crate::poseidon::{Poseidon, PoseidonView, RATE, T, permute_spec};
use crate::poly::lemma_vals_update;
use vstd::string::StringSliceAdditionalSpecFns;

verus! {

/// One interaction with a challenge source.
pub enum TranscriptEvent {
    Absorbed(int),
    Squeezed(int),
}

/// A source of Fiat-Shamir challenges: absorbs field elements, squeezes
/// field elements and indices.  Every interaction is recorded in `log`.
pub trait ChallengeSource<F: Field>: Sized {
    /// The interactions so far.
    open spec fn log(&self) -> Seq<TranscriptEvent> {
        Seq::empty()
    }

    /// The permutation the source hashes with; no interaction changes it.
    open spec fn hasher_view(&self) -> PoseidonView {
        PoseidonView { alpha: 0, round_constants: Seq::empty(), mds: Seq::empty() }
    }

    fn absorb(&mut self, value: F)
        ensures
            final(self).log() == old(self).log().push(TranscriptEvent::Absorbed(value.val())),
            final(self).hasher_view() == old(self).hasher_view(),
    ;

    fn squeeze_field(&mut self) -> (r: F)
        ensures
            final(self).log() == old(self).log().push(TranscriptEvent::Squeezed(r.val())),
            final(self).hasher_view() == old(self).hasher_view(),
    ;

    fn squeeze_index(&mut self, bound: usize) -> (r: usize)
        requires
            bound > 0,
        ensures
            r < bound,
            exists|c: int|
                final(self).log() == old(self).log().push(TranscriptEvent::Squeezed(c)) && r == c % (bound as int),
            final(self).hasher_view() == old(self).hasher_view(),
    ;
}

/// FNV-1a over bytes.
pub open spec fn fnv1a_spec(bytes: Seq<u8>) -> u64
    decreases bytes.len(),
{
    if bytes.len() == 0 {
        0xcbf2_9ce4_8422_2325u64
    } else {
        let h = fnv1a_spec(bytes.drop_last());
        (h ^ (bytes.last() as u64)).wrapping_mul(0x0000_0100_0000_01B3u64)
    }
}

fn fnv1a(bytes: &[u8]) -> (r: u64)
    ensures
        r == fnv1a_spec(bytes@),
{
    let mut hash: u64 = 0xcbf2_9ce4_8422_2325;
    let mut i: usize = 0;
    while i < bytes.len()
        invariant
            i <= bytes@.len(),
            hash == fnv1a_spec(bytes@.subrange(0, i as int)),
        decreases bytes.len() - i,
    {
        proof {
            assert(bytes@.subrange(0, i + 1).drop_last() =~= bytes@.subrange(0, i as int));
        }
        hash = hash ^ (bytes[i] as u64);
        hash = hash.wrapping_mul(0x0000_0100_0000_01B3);
        i = i + 1;
    }
    proof {
        assert(bytes@.subrange(0, bytes@.len() as int) =~= bytes@);
    }
    hash
}

/// The sponge state as plain values.
pub struct SpongeView {
    pub state: Seq<int>,
    pub absorb_pos: nat,
    pub squeeze_pos: nat,
}

/// Absorbing `v`: permute first if the rate is full, add `v` to the next
/// rate lane, and invalidate buffered output.
pub open spec fn absorb_spec(h: PoseidonView, s: SpongeView, v: int, p: int) -> SpongeView {
    let s1 = if s.absorb_pos == RATE {
        SpongeView { state: permute_spec(h, s.state, p), absorb_pos: 0, squeeze_pos: 0 }
    } else {
        s
    };
    SpongeView {
        state: s1.state.update(s1.absorb_pos as int, fa(s1.state[s1.absorb_pos as int], v, p)),
        absorb_pos: s1.absorb_pos + 1,
        squeeze_pos: RATE as nat,
    }
}

/// Squeezing: permute if anything was absorbed since the last permutation
/// or the buffered output is used up, then output the next rate lane.
pub open spec fn squeeze_spec(h: PoseidonView, s: SpongeView, p: int) -> (SpongeView, int) {
    let s1 = if s.absorb_pos != 0 || s.squeeze_pos >= RATE {
        SpongeView { state: permute_spec(h, s.state, p), absorb_pos: 0, squeeze_pos: 0 }
    } else {
        s
    };
    (SpongeView { squeeze_pos: s1.squeeze_pos + 1, ..s1 }, s1.state[s1.squeeze_pos as int])
}

/// The sponge every transcript starts from, before absorbing its label.
pub open spec fn empty_sponge() -> SpongeView {
    SpongeView { state: seq![0, 0, 0], absorb_pos: 0, squeeze_pos: RATE as nat }
}

/// The sponge after replaying `events` from the empty sponge.
#[verifier::opaque]
pub open spec fn log_state(h: PoseidonView, events: Seq<TranscriptEvent>, p: int) -> SpongeView
    decreases events.len(),
{
    if events.len() == 0 {
        empty_sponge()
    } else {
        let s = log_state(h, events.drop_last(), p);
        match events.last() {
            TranscriptEvent::Absorbed(v) => absorb_spec(h, s, v, p),
            TranscriptEvent::Squeezed(_) => squeeze_spec(h, s, p).0,
        }
    }
}

/// Every squeezed value in `events` is what the sponge gave at that point.
#[verifier::opaque]
pub open spec fn log_valid(h: PoseidonView, events: Seq<TranscriptEvent>, p: int) -> bool
    decreases events.len(),
{
    events.len() == 0 || {
        &&& log_valid(h, events.drop_last(), p)
        &&& match events.last() {
            TranscriptEvent::Absorbed(_) => true,
            TranscriptEvent::Squeezed(c) => c == squeeze_spec(h, log_state(h, events.drop_last(), p), p).1,
        }
    }
}

/// The log after the commit phase is replayed on top of `log`: each root
/// is absorbed, then the challenge the sponge gives is squeezed.
pub open spec fn replayed_log(h: PoseidonView, log: Seq<TranscriptEvent>, roots: Seq<int>, p: int) -> Seq<TranscriptEvent>
    decreases roots.len(),
{
    if roots.len() == 0 {
        log
    } else {
        let l1 = log.push(TranscriptEvent::Absorbed(roots[0]));
        let c = squeeze_spec(h, log_state(h, l1, p), p).1;
        replayed_log(h, l1.push(TranscriptEvent::Squeezed(c)), roots.drop_first(), p)
    }
}

/// The challenges drawn when the commit phase is replayed on top of `log`.
pub open spec fn replayed_challenges(h: PoseidonView, log: Seq<TranscriptEvent>, roots: Seq<int>, p: int) -> Seq<int>
    decreases roots.len(),
{
    if roots.len() == 0 {
        Seq::empty()
    } else {
        let l1 = log.push(TranscriptEvent::Absorbed(roots[0]));
        let c = squeeze_spec(h, log_state(h, l1, p), p).1;
        seq![c] + replayed_challenges(h, l1.push(TranscriptEvent::Squeezed(c)), roots.drop_first(), p)
    }
}

/// A prefix of a valid log is valid.
pub proof fn lemma_log_valid_prefix(h: PoseidonView, a: Seq<TranscriptEvent>, b: Seq<TranscriptEvent>, p: int)
    requires
        log_valid(h, a + b, p),
    ensures
        log_valid(h, a, p),
    decreases b.len(),
{
    reveal(log_valid);
    if b.len() > 0 {
        assert((a + b).drop_last() =~= a + b.drop_last());
        lemma_log_valid_prefix(h, a, b.drop_last(), p);
    } else {
        assert(a + b =~= a);
    }
}

/// The transcript.
pub struct Transcript<'h, F: Field> {
    hasher: &'h Poseidon<F>,
    state: [F; T],
    absorb_pos: usize,
    squeeze_pos: usize,
    events: Ghost<Seq<TranscriptEvent>>,
}

impl<'h, F: Field> Transcript<'h, F> {
    #[verifier::type_invariant]
    spec fn inv(self) -> bool {
        &&& self.absorb_pos <= RATE
        &&& self.squeeze_pos <= RATE
        &&& log_valid(self.hasher@, self.events@, F::p())
        &&& self.sponge() == log_state(self.hasher@, self.events@, F::p())
    }

    /// The sponge state is a function of the interactions so far, and
    /// every squeezed value in the log is what the sponge gave.
    pub fn check_log(&self)
        ensures
            log_valid(self.hasher_view(), self.log(), F::p()),
            self.sponge() == log_state(self.hasher_view(), self.log(), F::p()),
    {
        proof {
            use_type_invariant(self);
        }
    }

    /// The sponge state.
    pub closed spec fn sponge(&self) -> SpongeView {
        SpongeView {
            state: vals(self.state@),
            absorb_pos: self.absorb_pos as nat,
            squeeze_pos: self.squeeze_pos as nat,
        }
    }

    /// A transcript for the protocol named `label`: the label's FNV-1a hash
    /// is absorbed first, so different protocols draw different challenges.
    pub fn new(hasher: &'h Poseidon<F>, label: &str) -> (r: Self)
        ensures
            r.hasher_view() == hasher@,
            r.sponge() == absorb_spec(
                hasher@,
                empty_sponge(),
                fnv1a_spec(label.spec_bytes()) as int % F::p(),
                F::p(),
            ),
            r.log() == seq![TranscriptEvent::Absorbed(fnv1a_spec(label.spec_bytes()) as int % F::p())],
    {
        let z = F::zero();
        proof {
            assert(vals([z, z, z]@) =~= seq![0int, 0, 0]);
            reveal(log_state);
            reveal(log_valid);
        }
        let mut t = Transcript {
            hasher,
            state: [z, z, z],
            absorb_pos: 0,
            squeeze_pos: RATE,
            events: Ghost(Seq::empty()),
        };
        let tag = F::from_u64(fnv1a(label.as_bytes()));
        t.absorb(tag);
        proof {
            assert(t.log() =~= seq![TranscriptEvent::Absorbed(tag.val())]);
        }
        t
    }

    /// The state after one permutation.
    fn permuted_state(&self) -> (r: [F; T])
        ensures
            vals(r@) == permute_spec(self.hasher_view(), self.sponge().state, F::p()),
    {
        self.hasher.permute(self.state)
    }

    /// Absorbs one field element.
    pub fn absorb(&mut self, value: F)
        ensures
            final(self).sponge() == absorb_spec(old(self).hasher_view(), old(self).sponge(), value.val(), F::p()),
            final(self).hasher_view() == old(self).hasher_view(),
            final(self).log() == old(self).log().push(TranscriptEvent::Absorbed(value.val())),
    {
        proof {
            use_type_invariant(&*self);
        }
        let full = self.absorb_pos == RATE;
        let mut state = if full {
            self.permuted_state()
        } else {
            self.state
        };
        let pos = if full {
            0
        } else {
            self.absorb_pos
        };
        let ghost before = state@;
        let v = state[pos].fadd(value);
        state[pos] = v;
        proof {
            lemma_vals_update(before, pos as int, v);
        }
        let ghost events = self.events@.push(TranscriptEvent::Absorbed(value.val()));
        proof {
            assert(events.drop_last() =~= self.events@);
            reveal(log_state);
            reveal(log_valid);
        }
        *self = Transcript { hasher: self.hasher, state, absorb_pos: pos + 1, squeeze_pos: RATE, events: Ghost(events) };
    }

    /// Absorbs the elements in order.
    pub fn absorb_many(&mut self, values: &[F])
        ensures
            final(self).sponge() == absorb_all(old(self).hasher_view(), old(self).sponge(), vals(values@), F::p()),
            final(self).hasher_view() == old(self).hasher_view(),
            final(self).log() == old(self).log() + vals(values@).map_values(|v: int| TranscriptEvent::Absorbed(v)),
    {
        let mut i: usize = 0;
        proof {
            assert(vals(values@).subrange(0, values@.len() as int) =~= vals(values@));
            assert(vals(values@).subrange(0, 0).map_values(|v: int| TranscriptEvent::Absorbed(v)) =~= Seq::empty());
            assert(old(self).log() + Seq::<TranscriptEvent>::empty() =~= old(self).log());
        }
        while i < values.len()
            invariant
                i <= values@.len(),
                self.hasher_view() == old(self).hasher_view(),
                absorb_all(self.hasher_view(), self.sponge(), vals(values@).subrange(i as int, values@.len() as int), F::p())
                    == absorb_all(old(self).hasher_view(), old(self).sponge(), vals(values@), F::p()),
                self.log() == old(self).log() + vals(values@).subrange(0, i as int).map_values(|v: int| TranscriptEvent::Absorbed(v)),
            decreases values.len() - i,
        {
            proof {
                let rest = vals(values@).subrange(i as int, values@.len() as int);
                assert(rest.drop_first() =~= vals(values@).subrange(i + 1, values@.len() as int));
                assert(rest[0] == values@[i as int].val());
            }
            self.absorb(values[i]);
            i = i + 1;
            proof {
                assert(vals(values@).subrange(0, i as int).map_values(|v: int| TranscriptEvent::Absorbed(v))
                    =~= vals(values@).subrange(0, i - 1).map_values(|v: int| TranscriptEvent::Absorbed(v)).push(
                    TranscriptEvent::Absorbed(values@[i - 1].val()),
                ));
            }
        }
        proof {
            assert(vals(values@).subrange(0, values@.len() as int) =~= vals(values@));
        }
    }

    /// Absorbs `value` reduced into the field.
    pub fn absorb_u64(&mut self, value: u64)
        ensures
            final(self).sponge() == absorb_spec(old(self).hasher_view(), old(self).sponge(), value as int % F::p(), F::p()),
            final(self).hasher_view() == old(self).hasher_view(),
            final(self).log() == old(self).log().push(TranscriptEvent::Absorbed(value as int % F::p())),
    {
        self.absorb(F::from_u64(value));
    }

    /// Squeezes one field element.
    pub fn squeeze_field(&mut self) -> (r: F)
        ensures
            (final(self).sponge(), r.val()) == squeeze_spec(old(self).hasher_view(), old(self).sponge(), F::p()),
            final(self).hasher_view() == old(self).hasher_view(),
            final(self).log() == old(self).log().push(TranscriptEvent::Squeezed(r.val())),
    {
        proof {
            use_type_invariant(&*self);
        }
        let refill = self.absorb_pos != 0 || self.squeeze_pos >= RATE;
        let state = if refill {
            self.permuted_state()
        } else {
            self.state
        };
        let pos = if refill {
            0
        } else {
            self.squeeze_pos
        };
        let out = state[pos];
        let ghost events = self.events@.push(TranscriptEvent::Squeezed(out.val()));
        proof {
            assert(events.drop_last() =~= self.events@);
            reveal(log_state);
            reveal(log_valid);
        }
        *self = Transcript {
            hasher: self.hasher,
            state,
            absorb_pos: if refill { 0 } else { self.absorb_pos },
            squeeze_pos: pos + 1,
            events: Ghost(events),
        };
        out
    }

    /// Squeezes an index below `bound`.
    pub fn squeeze_index(&mut self, bound: usize) -> (r: usize)
        requires
            bound > 0,
        ensures
            r < bound,
            r == squeeze_spec(old(self).hasher_view(), old(self).sponge(), F::p()).1 % (bound as int),
            final(self).sponge() == squeeze_spec(old(self).hasher_view(), old(self).sponge(), F::p()).0,
            final(self).hasher_view() == old(self).hasher_view(),
            final(self).log() == old(self).log().push(
                TranscriptEvent::Squeezed(squeeze_spec(old(self).hasher_view(), old(self).sponge(), F::p()).1),
            ),
    {
        let f = self.squeeze_field();
        (f.to_canonical_u64() % (bound as u64)) as usize
    }
}

/// Absorbing a sequence of values, one after another.
pub open spec fn absorb_all(h: PoseidonView, s: SpongeView, values: Seq<int>, p: int) -> SpongeView
    decreases values.len(),
{
    if values.len() == 0 {
        s
    } else {
        absorb_all(h, absorb_spec(h, s, values[0], p), values.drop_first(), p)
    }
}

impl<'h, F: Field> ChallengeSource<F> for Transcript<'h, F> {
    closed spec fn log(&self) -> Seq<TranscriptEvent> {
        self.events@
    }

    closed spec fn hasher_view(&self) -> PoseidonView {
        self.hasher@
    }

    fn absorb(&mut self, value: F) {
        Transcript::absorb(self, value);
    }

    fn squeeze_field(&mut self) -> (r: F) {
        Transcript::squeeze_field(self)
    }

    fn squeeze_index(&mut self, bound: usize) -> (r: usize) {
        Transcript::squeeze_index(self, bound)
    }
}

} // verus!
