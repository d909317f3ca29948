//! The Poseidon permutation over a width-3 state, and the sponge hash
//! built on it (rate 2, capacity 1).

use vstd::prelude::*;
use crate::field::{Field, vals, fa, fm, pow_mod};
use crate::poly::lemma_vals_update;

verus! {

pub const T: usize = 3;

pub const RATE: usize = 2;

pub const FULL_ROUNDS: usize = 8;

pub const PARTIAL_ROUNDS: usize = 22;

pub const TOTAL_ROUNDS: usize = 30;

/// The seed from which the round constants are drawn ("POSEIDON" in ASCII).
pub const ROUND_CONSTANT_SEED: u64 = 0x504F5345_49444F4E;

/// Greatest common divisor, by Euclid's algorithm.
pub open spec fn gcd_spec(a: nat, b: nat) -> nat
    decreases b,
{
    if b == 0 {
        a
    } else {
        gcd_spec(b, a % b)
    }
}

fn gcd(a: u64, b: u64) -> (r: u64)
    ensures
        r == gcd_spec(a as nat, b as nat),
    decreases b,
{
    if b == 0 {
        a
    } else {
        gcd(b, a % b)
    }
}

/// The SplitMix64 output function.
pub open spec fn splitmix_mix(s: u64) -> u64 {
    let z1 = (s ^ (s >> 30u64)).wrapping_mul(0xBF58476D1CE4E5B9u64);
    let z2 = (z1 ^ (z1 >> 27u64)).wrapping_mul(0x94D049BB133111EBu64);
    z2 ^ (z2 >> 31u64)
}

/// The SplitMix64 state after `k` steps from `seed`.
pub open spec fn splitmix_state(seed: u64, k: nat) -> u64
    decreases k,
{
    if k == 0 {
        seed
    } else {
        splitmix_state(seed, (k - 1) as nat).wrapping_add(0x9E3779B97F4A7C15u64)
    }
}

/// The `k`-th SplitMix64 output (`k >= 1`).
pub open spec fn splitmix_output(seed: u64, k: nat) -> u64 {
    splitmix_mix(splitmix_state(seed, k))
}

fn splitmix64_next(state: &mut u64) -> (r: u64)
    ensures
        *final(state) == (*old(state)).wrapping_add(0x9E3779B97F4A7C15u64),
        r == splitmix_mix(*final(state)),
{
    *state = state.wrapping_add(0x9E3779B97F4A7C15);
    let mut z = *state;
    z = (z ^ (z >> 30)).wrapping_mul(0xBF58476D1CE4E5B9);
    z = (z ^ (z >> 27)).wrapping_mul(0x94D049BB133111EB);
    z ^ (z >> 31)
}

/// The Poseidon parameters as plain values.
pub struct PoseidonView {
    pub alpha: nat,
    pub round_constants: Seq<Seq<int>>,
    pub mds: Seq<Seq<int>>,
}

/// A Poseidon instance: S-box exponent, round constants and MDS matrix.
pub struct Poseidon<F: Field> {
    alpha: u64,
    round_constants: Vec<[F; T]>,
    mds: [[F; T]; T],
}

impl<F: Field> View for Poseidon<F> {
    type V = PoseidonView;

    closed spec fn view(&self) -> PoseidonView {
        PoseidonView {
            alpha: self.alpha as nat,
            round_constants: self.round_constants@.map_values(|c: [F; T]| vals(c@)),
            mds: self.mds@.map_values(|row: [F; T]| vals(row@)),
        }
    }
}

/// Is round `r` a full round (S-box on every lane)?
pub open spec fn is_full_round(r: int) -> bool {
    r < (FULL_ROUNDS / 2) as int || r >= (FULL_ROUNDS / 2 + PARTIAL_ROUNDS) as int
}

/// Adds the round constants lane-wise.
pub open spec fn add_round_constants(s: Seq<int>, c: Seq<int>, p: int) -> Seq<int> {
    Seq::new(T as nat, |i: int| fa(s[i], c[i], p))
}

/// Raises every lane (full round) or lane 0 (partial round) to `alpha`.
pub open spec fn sbox_layer(s: Seq<int>, full: bool, alpha: nat, p: int) -> Seq<int> {
    Seq::new(T as nat, |i: int| if full || i == 0 { pow_mod(s[i], alpha, p) } else { s[i] })
}

/// Multiplies the state by the MDS matrix.
pub open spec fn mds_mul(m: Seq<Seq<int>>, s: Seq<int>, p: int) -> Seq<int> {
    Seq::new(
        T as nat,
        |i: int| fa(fa(fa(0, fm(m[i][0], s[0], p), p), fm(m[i][1], s[1], p), p), fm(m[i][2], s[2], p), p),
    )
}

/// One round of the permutation.
pub open spec fn round(h: PoseidonView, s: Seq<int>, r: int, p: int) -> Seq<int> {
    mds_mul(h.mds, sbox_layer(add_round_constants(s, h.round_constants[r], p), is_full_round(r), h.alpha, p), p)
}

/// The first `n` rounds of the permutation.
pub open spec fn rounds(h: PoseidonView, s: Seq<int>, n: nat, p: int) -> Seq<int>
    decreases n,
{
    if n == 0 {
        s
    } else {
        round(h, rounds(h, s, (n - 1) as nat, p), n - 1, p)
    }
}

/// The Poseidon permutation.
#[verifier::opaque]
pub open spec fn permute_spec(h: PoseidonView, s: Seq<int>, p: int) -> Seq<int> {
    rounds(h, s, h.round_constants.len(), p)
}

/// Absorbs the inputs `rate` at a time into `state`, permuting after each chunk.
pub open spec fn absorb_chunks(h: PoseidonView, state: Seq<int>, inputs: Seq<int>, p: int) -> Seq<int>
    decreases inputs.len(),
{
    if inputs.len() == 0 {
        state
    } else if inputs.len() == 1 {
        permute_spec(h, state.update(0, fa(state[0], inputs[0], p)), p)
    } else {
        absorb_chunks(
            h,
            permute_spec(h, state.update(0, fa(state[0], inputs[0], p)).update(1, fa(state[1], inputs[1], p)), p),
            inputs.subrange(2, inputs.len() as int),
            p,
        )
    }
}

/// The sponge hash of a sequence of field elements.
pub open spec fn hash_many_spec(h: PoseidonView, inputs: Seq<int>, p: int) -> int {
    if inputs.len() == 0 {
        permute_spec(h, seq![0, 0, 0], p)[0]
    } else {
        absorb_chunks(h, seq![0, 0, 0], inputs, p)[0]
    }
}

/// The hash of two field elements.
pub open spec fn hash_two_spec(h: PoseidonView, a: int, b: int, p: int) -> int {
    hash_many_spec(h, seq![a, b], p)
}

/// A well-formed instance: 30 rounds of 3 constants and a 3 x 3 matrix,
/// every entry canonical.
pub open spec fn poseidon_wf<F: Field>(h: PoseidonView) -> bool {
    &&& h.round_constants.len() == TOTAL_ROUNDS
    &&& forall|r: int| 0 <= r < TOTAL_ROUNDS ==> (#[trigger] h.round_constants[r]).len() == T
    &&& h.mds.len() == T
    &&& forall|i: int| 0 <= i < T ==> (#[trigger] h.mds[i]).len() == T
}

/// The instance `Poseidon::new(alpha)` builds: round constants from
/// SplitMix64 seeded with `ROUND_CONSTANT_SEED`, and the Cauchy MDS matrix.
pub open spec fn standard_poseidon<F: Field>(alpha: nat) -> PoseidonView {
    PoseidonView {
        alpha,
        round_constants: Seq::new(
            TOTAL_ROUNDS as nat,
            |k: int| Seq::new(T as nat, |i: int| splitmix_output(ROUND_CONSTANT_SEED, (T * k + i + 1) as nat) as int % F::p()),
        ),
        mds: Seq::new(T as nat, |i: int| Seq::new(T as nat, |j: int| F::inv_val((i + T + j) % F::p()))),
    }
}

impl<F: Field> Poseidon<F> {
    #[verifier::type_invariant]
    spec fn inv(self) -> bool {
        self.round_constants@.len() == TOTAL_ROUNDS
    }

    /// The parameters are well formed.
    pub fn check_wf(&self)
        ensures
            poseidon_wf::<F>(self@),
    {
        proof {
            use_type_invariant(self);
            self.lemma_view_parts();
        }
    }

    /// An instance with S-box `x^alpha`, round constants drawn from
    /// SplitMix64 seeded with `ROUND_CONSTANT_SEED`, and the Cauchy MDS
    /// matrix `1 / (i + (T + j))`.  `alpha` must be coprime to `p - 1` so
    /// that the S-box is a bijection.
    pub fn new(alpha: u64) -> (r: Self)
        requires
            gcd_spec(alpha as nat, (F::p() - 1) as nat) == 1,
        ensures
            r@.alpha == alpha,
            r@.round_constants.len() == TOTAL_ROUNDS,
            forall|k: int, i: int|
                0 <= k < TOTAL_ROUNDS && 0 <= i < T ==> #[trigger] r@.round_constants[k][i] == splitmix_output(
                    ROUND_CONSTANT_SEED,
                    (T * k + i + 1) as nat,
                ) as int % F::p(),
            forall|i: int, j: int|
                0 <= i < T && 0 <= j < T ==> #[trigger] r@.mds[i][j] == F::inv_val((i + T + j) % F::p()),
            poseidon_wf::<F>(r@),
            r@ == standard_poseidon::<F>(alpha as nat),
    {
        proof {
            F::lemma_modulus();
        }
        let g = gcd(alpha, F::modulus() - 1);

        let mut seed: u64 = ROUND_CONSTANT_SEED;
        let mut round_constants: Vec<[F; T]> = Vec::with_capacity(TOTAL_ROUNDS);
        let mut k: usize = 0;
        while k < TOTAL_ROUNDS
            invariant
                k <= TOTAL_ROUNDS,
                round_constants@.len() == k,
                seed == splitmix_state(ROUND_CONSTANT_SEED, (T * k) as nat),
                forall|kk: int, i: int|
                    0 <= kk < k && 0 <= i < T ==> #[trigger] vals(round_constants@[kk]@)[i] == splitmix_output(
                        ROUND_CONSTANT_SEED,
                        (T * kk + i + 1) as nat,
                    ) as int % F::p(),
            decreases TOTAL_ROUNDS - k,
        {
            let x0 = splitmix64_next(&mut seed);
            proof {
                assert(seed == splitmix_state(ROUND_CONSTANT_SEED, (T * k + 1) as nat));
            }
            let x1 = splitmix64_next(&mut seed);
            proof {
                assert(seed == splitmix_state(ROUND_CONSTANT_SEED, (T * k + 2) as nat));
            }
            let x2 = splitmix64_next(&mut seed);
            proof {
                assert(seed == splitmix_state(ROUND_CONSTANT_SEED, (T * k + 3) as nat));
                assert(T * k + 3 == T * (k + 1));
            }
            let row = [F::from_u64(x0), F::from_u64(x1), F::from_u64(x2)];
            let ghost before = round_constants@;
            round_constants.push(row);
            proof {
                assert forall|kk: int, i: int|
                    0 <= kk < k + 1 && 0 <= i < T implies #[trigger] vals(round_constants@[kk]@)[i] == splitmix_output(
                        ROUND_CONSTANT_SEED,
                        (T * kk + i + 1) as nat,
                    ) as int % F::p() by {
                    if kk < k {
                        assert(round_constants@[kk] == before[kk]);
                    } else {
                        assert(round_constants@[kk] == row);
                        assert(vals(row@)[0] == x0 as int % F::p());
                        assert(vals(row@)[1] == x1 as int % F::p());
                        assert(vals(row@)[2] == x2 as int % F::p());
                    }
                }
            }
            k = k + 1;
        }

        let z = F::zero();
        let mut mds = [[z, z, z], [z, z, z], [z, z, z]];
        let mut i: usize = 0;
        while i < T
            invariant
                i <= T,
                F::p() > 64,
                forall|ii: int, j: int|
                    0 <= ii < i && 0 <= j < T ==> #[trigger] vals(mds@[ii]@)[j] == F::inv_val((ii + T + j) % F::p()),
            decreases T - i,
        {
            let mut row = [z, z, z];
            let mut j: usize = 0;
            while j < T
                invariant
                    j <= T,
                    i < T,
                    F::p() > 64,
                    forall|jj: int| 0 <= jj < j ==> #[trigger] vals(row@)[jj] == F::inv_val((i + T + jj) % F::p()),
                decreases T - j,
            {
                let x_i = F::from_u64(i as u64);
                let y_j = F::from_u64((T + j) as u64);
                proof {
                    vstd::arithmetic::div_mod::lemma_small_mod(i as nat, F::p() as nat);
                    vstd::arithmetic::div_mod::lemma_small_mod((T + j) as nat, F::p() as nat);
                    vstd::arithmetic::div_mod::lemma_small_mod((i + T + j) as nat, F::p() as nat);
                }
                let v = x_i.fadd(y_j).inverse().expect("x_i + y_j chosen nonzero by construction");
                let ghost before = row@;
                row[j] = v;
                proof {
                    lemma_vals_update(before, j as int, v);
                }
                j = j + 1;
            }
            let ghost before = mds@;
            mds[i] = row;
            proof {
                assert forall|ii: int, j: int|
                    0 <= ii < i + 1 && 0 <= j < T implies #[trigger] vals(mds@[ii]@)[j] == F::inv_val((ii + T + j) % F::p()) by {
                    if ii < i {
                        assert(mds@[ii] == before[ii]);
                    } else {
                        assert(mds@[ii] == row);
                    }
                }
            }
            i = i + 1;
        }
        let r = Poseidon { alpha, round_constants, mds };
        proof {
            r.lemma_view_parts();
            let sp = standard_poseidon::<F>(alpha as nat);
            assert forall|k: int| 0 <= k < TOTAL_ROUNDS implies #[trigger] r@.round_constants[k] =~= sp.round_constants[k] by {
                assert forall|i: int| 0 <= i < T implies r@.round_constants[k][i] == sp.round_constants[k][i] by {
                    assert(r@.round_constants[k][i] == splitmix_output(
                        ROUND_CONSTANT_SEED,
                        (T * k + i + 1) as nat,
                    ) as int % F::p());
                }
            }
            assert(r@.round_constants =~= sp.round_constants);
            assert forall|i: int| 0 <= i < T implies #[trigger] r@.mds[i] =~= sp.mds[i] by {
                assert forall|j: int| 0 <= j < T implies r@.mds[i][j] == sp.mds[i][j] by {
                    assert(r@.mds[i][j] == F::inv_val((i + T + j) % F::p()));
                }
            }
            assert(r@.mds =~= sp.mds);
        }
        r
    }

    proof fn lemma_view_parts(&self)
        ensures
            forall|k: int| 0 <= k < self.round_constants@.len() ==> #[trigger] self@.round_constants[k] == vals(self.round_constants@[k]@),
            forall|i: int| 0 <= i < T ==> #[trigger] self@.mds[i] == vals(self.mds@[i]@),
            self@.round_constants.len() == self.round_constants@.len(),
            self@.mds.len() == T,
    {
    }

    /// The MDS matrix.
    pub fn mds(&self) -> (r: [[F; T]; T])
        ensures
            forall|i: int| 0 <= i < T ==> #[trigger] vals(r@[i]@) == self@.mds[i],
    {
        proof {
            self.lemma_view_parts();
        }
        self.mds
    }

    fn mds_multiply(&self, state: [F; T]) -> (r: [F; T])
        ensures
            vals(r@) == mds_mul(self@.mds, vals(state@), F::p()),
    {
        proof {
            self.lemma_view_parts();
        }
        let z = F::zero();
        let mut out = [z, z, z];
        let mut i: usize = 0;
        while i < T
            invariant
                i <= T,
                forall|ii: int| 0 <= ii < i ==> #[trigger] vals(out@)[ii] == mds_mul(self@.mds, vals(state@), F::p())[ii],
                forall|ii: int| 0 <= ii < T ==> #[trigger] self@.mds[ii] == vals(self.mds@[ii]@),
            decreases T - i,
        {
            let mut acc = F::zero();
            let mut j: usize = 0;
            while j < T
                invariant
                    j <= T,
                    i < T,
                    acc.val() == if j == 0 {
                        0
                    } else if j == 1 {
                        fa(0, fm(self@.mds[i as int][0], vals(state@)[0], F::p()), F::p())
                    } else if j == 2 {
                        fa(fa(0, fm(self@.mds[i as int][0], vals(state@)[0], F::p()), F::p()), fm(self@.mds[i as int][1], vals(state@)[1], F::p()), F::p())
                    } else {
                        mds_mul(self@.mds, vals(state@), F::p())[i as int]
                    },
                    forall|ii: int| 0 <= ii < T ==> #[trigger] self@.mds[ii] == vals(self.mds@[ii]@),
                decreases T - j,
            {
                proof {
                    assert(vals(self.mds@[i as int]@)[j as int] == self.mds@[i as int]@[j as int].val());
                    assert(vals(state@)[j as int] == state@[j as int].val());
                }
                acc = acc.fadd(self.mds[i][j].fmul(state[j]));
                j = j + 1;
            }
            let ghost before = out@;
            out[i] = acc;
            proof {
                lemma_vals_update(before, i as int, acc);
            }
            i = i + 1;
        }
        proof {
            assert(vals(out@) =~= mds_mul(self@.mds, vals(state@), F::p()));
        }
        out
    }

    /// The Poseidon permutation of a width-3 state.
    pub fn permute(&self, state: [F; T]) -> (r: [F; T])
        ensures
            vals(r@) == permute_spec(self@, vals(state@), F::p()),
    {
        proof {
            use_type_invariant(self);
            self.lemma_view_parts();
        }
        let mut state = state;
        let ghost s0 = vals(state@);
        let half_full = FULL_ROUNDS / 2;
        let n = self.round_constants.len();
        let mut r: usize = 0;
        while r < n
            invariant
                r <= n,
                n == self.round_constants@.len(),
                n == self@.round_constants.len(),
                half_full == FULL_ROUNDS / 2,
                vals(state@) == rounds(self@, s0, r as nat, F::p()),
                forall|k: int| 0 <= k < n ==> #[trigger] self@.round_constants[k] == vals(self.round_constants@[k]@),
            decreases n - r,
        {
            let constants = self.round_constants[r];
            let ghost before = vals(state@);
            let mut i: usize = 0;
            while i < T
                invariant
                    i <= T,
                    forall|ii: int| 0 <= ii < i ==> #[trigger] vals(state@)[ii] == add_round_constants(before, vals(constants@), F::p())[ii],
                    forall|ii: int| i <= ii < T ==> #[trigger] vals(state@)[ii] == before[ii],
                decreases T - i,
            {
                let ghost b = state@;
                let v = state[i].fadd(constants[i]);
                state[i] = v;
                proof {
                    lemma_vals_update(b, i as int, v);
                    assert(vals(b)[i as int] == b[i as int].val());
                    assert(vals(constants@)[i as int] == constants@[i as int].val());
                }
                i = i + 1;
            }
            let ghost added = vals(state@);
            proof {
                assert(added =~= add_round_constants(before, vals(constants@), F::p()));
            }
            let is_full_round = r < half_full || r >= half_full + PARTIAL_ROUNDS;
            if is_full_round {
                let mut i: usize = 0;
                while i < T
                    invariant
                        i <= T,
                        forall|ii: int| 0 <= ii < i ==> #[trigger] vals(state@)[ii] == pow_mod(added[ii], self@.alpha, F::p()),
                        forall|ii: int| i <= ii < T ==> #[trigger] vals(state@)[ii] == added[ii],
                    decreases T - i,
                {
                    let ghost b = state@;
                    let v = state[i].pow(self.alpha);
                    state[i] = v;
                    proof {
                        lemma_vals_update(b, i as int, v);
                        assert(vals(b)[i as int] == b[i as int].val());
                    }
                    i = i + 1;
                }
            } else {
                let ghost b = state@;
                let v = state[0].pow(self.alpha);
                state[0] = v;
                proof {
                    lemma_vals_update(b, 0, v);
                    assert(vals(b)[0] == b[0].val());
                }
            }
            proof {
                assert(vals(state@) =~= sbox_layer(added, is_full_round, self@.alpha, F::p()));
            }
            state = self.mds_multiply(state);
            r = r + 1;
        }
        proof {
            reveal(permute_spec);
        }
        state
    }

    /// The sponge hash of `inputs`: absorb two elements at a time into lanes
    /// 0 and 1 (a short last chunk leaves lane 1 alone), permute after each
    /// chunk, and output lane 0.  The empty input hashes to the permutation
    /// of the zero state.
    pub fn hash_many(&self, inputs: &[F]) -> (r: F)
        ensures
            r.val() == hash_many_spec(self@, vals(inputs@), F::p()),
    {
        let z = F::zero();
        let mut state = [z, z, z];
        proof {
            assert(vals(state@) =~= seq![0int, 0, 0]);
        }
        if inputs.len() == 0 {
            return self.permute(state)[0];
        }
        let n = inputs.len();
        let mut pos: usize = 0;
        proof {
            assert(vals(inputs@).subrange(0, n as int) =~= vals(inputs@));
        }
        while pos < n
            invariant
                pos <= n,
                n == inputs@.len(),
                n > 0,
                vals(state@).len() == T,
                absorb_chunks(self@, vals(state@), vals(inputs@).subrange(pos as int, n as int), F::p())
                    == absorb_chunks(self@, seq![0int, 0, 0], vals(inputs@), F::p()),
            decreases n - pos,
        {
            let ghost rest = vals(inputs@).subrange(pos as int, n as int);
            let ghost before = vals(state@);
            let ghost b0 = state@;
            let v0 = state[0].fadd(inputs[pos]);
            state[0] = v0;
            proof {
                lemma_vals_update(b0, 0, v0);
                assert(rest[0] == inputs@[pos as int].val());
            }
            if pos + 1 < n {
                let ghost b1 = state@;
                let v1 = state[1].fadd(inputs[pos + 1]);
                state[1] = v1;
                proof {
                    lemma_vals_update(b1, 1, v1);
                    assert(rest[1] == inputs@[pos + 1].val());
                }
            }
            proof {
                if pos + 1 < n {
                    assert(vals(state@) =~= before.update(0, fa(before[0], rest[0], F::p())).update(1, fa(before[1], rest[1], F::p())));
                    assert(rest.subrange(2, rest.len() as int) =~= vals(inputs@).subrange(pos + 2, n as int));
                } else {
                    assert(vals(state@) =~= before.update(0, fa(before[0], rest[0], F::p())));
                }
            }
            state = self.permute(state);
            pos = if pos + 1 < n { pos + 2 } else { n };
            proof {
                if pos >= n {
                    assert(vals(inputs@).subrange(n as int, n as int) =~= Seq::<int>::empty());
                }
            }
        }
        proof {
            assert(vals(inputs@).subrange(n as int, n as int) =~= Seq::<int>::empty());
        }
        state[0]
    }

    /// The hash of two elements.
    pub fn hash_two(&self, left: F, right: F) -> (r: F)
        ensures
            r.val() == hash_two_spec(self@, left.val(), right.val(), F::p()),
    {
        let v = vec![left, right];
        proof {
            assert(vals(v@) =~= seq![left.val(), right.val()]);
        }
        self.hash_many(v.as_slice())
    }
}

/// A sponge state: three lanes, each reduced modulo `p`.
pub open spec fn state_reduced(s: Seq<int>, p: int) -> bool {
    s.len() == 3 && forall|i: int| 0 <= i < 3 ==> 0 <= #[trigger] s[i] < p
}

/// The permutation keeps a state reduced.
proof fn lemma_permute_reduced(h: PoseidonView, s: Seq<int>, p: int)
    requires
        p > 0,
        state_reduced(s, p),
    ensures
        state_reduced(permute_spec(h, s, p), p),
{
    reveal(permute_spec);
    let n = h.round_constants.len();
    if n > 0 {
        let out = rounds(h, s, n, p);
        assert forall|i: int| 0 <= i < 3 implies 0 <= #[trigger] out[i] < p by {
            vstd::arithmetic::div_mod::lemma_mod_bound(
                fa(fa(0, fm(h.mds[i][0], rounds(h, s, (n - 1) as nat, p)[0], p), p), fm(h.mds[i][1], 0, p), p),
                p,
            );
            let prev = rounds(h, s, (n - 1) as nat, p);
            let t = sbox_layer(add_round_constants(prev, h.round_constants[n - 1], p), is_full_round(n - 1), h.alpha, p);
            vstd::arithmetic::div_mod::lemma_mod_bound(
                fa(fa(0, fm(h.mds[i][0], t[0], p), p), fm(h.mds[i][1], t[1], p), p) + fm(h.mds[i][2], t[2], p),
                p,
            );
        }
    }
}

/// Absorbing an odd number of inputs and absorbing them followed by a zero
/// leave the same state: the last chunk is padded with zero.
proof fn lemma_absorb_zero_pad(h: PoseidonView, st: Seq<int>, xs: Seq<int>, p: int)
    requires
        p > 1,
        state_reduced(st, p),
        xs.len() % 2 == 1,
    ensures
        absorb_chunks(h, st, xs.push(0), p) == absorb_chunks(h, st, xs, p),
    decreases xs.len(),
{
    let ys = xs.push(0);
    let s0 = st.update(0, fa(st[0], xs[0], p));
    vstd::arithmetic::div_mod::lemma_small_mod(st[1] as nat, p as nat);
    assert(fa(st[1], 0, p) == st[1]);
    assert(ys[0] == xs[0]);
    if xs.len() == 1 {
        assert(ys[1] == 0);
        assert(s0.update(1, fa(st[1], ys[1], p)) =~= s0);
        assert(ys.subrange(2, ys.len() as int) =~= Seq::<int>::empty());
        assert(absorb_chunks(h, st, ys, p) == absorb_chunks(
            h,
            permute_spec(h, s0, p),
            ys.subrange(2, ys.len() as int),
            p,
        ));
        assert(absorb_chunks(h, permute_spec(h, s0, p), Seq::<int>::empty(), p) == permute_spec(h, s0, p));
        assert(absorb_chunks(h, st, xs, p) == permute_spec(h, s0, p));
    } else {
        let s1 = s0.update(1, fa(st[1], xs[1], p));
        vstd::arithmetic::div_mod::lemma_mod_bound(st[0] + xs[0], p);
        vstd::arithmetic::div_mod::lemma_mod_bound(st[1] + xs[1], p);
        assert(state_reduced(s1, p));
        lemma_permute_reduced(h, s1, p);
        let rest = xs.subrange(2, xs.len() as int);
        assert(ys.subrange(2, ys.len() as int) =~= rest.push(0));
        assert(ys[0] == xs[0] && ys[1] == xs[1]);
        lemma_absorb_zero_pad(h, permute_spec(h, s1, p), rest, p);
        assert(absorb_chunks(h, st, ys, p) == absorb_chunks(h, permute_spec(h, s1, p), rest.push(0), p));
        assert(absorb_chunks(h, st, xs, p) == absorb_chunks(h, permute_spec(h, s1, p), rest, p));
    }
}

/// Hashing an odd number of values is hashing them with a zero appended:
/// the last chunk is padded with zero. In particular the hash of one value
/// is the hash of that value and zero.
pub proof fn lemma_hash_many_zero_padding(h: PoseidonView, xs: Seq<int>, p: int)
    requires
        p > 1,
        xs.len() % 2 == 1,
    ensures
        hash_many_spec(h, xs.push(0), p) == hash_many_spec(h, xs, p),
{
    vstd::arithmetic::div_mod::lemma_small_mod(0, p as nat);
    assert(state_reduced(seq![0, 0, 0], p));
    lemma_absorb_zero_pad(h, seq![0, 0, 0], xs, p);
}

} // verus!
