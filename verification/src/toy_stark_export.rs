//! The data behind the polynomial, FRI and proof views of the visualizer,
//! for the arithmetic progression `3, 5, 7, ...` of length 8 over the toy
//! field.

use vstd::prelude::*;
use vstd::string::{StringExecFns, StringSliceAdditionalSpecFns};
use crate::field::{Field, vals};
use crate::toyfield::{ToyField, lemma_toy_no_zero_divisors};
use crate::poseidon::{Poseidon, PoseidonView, gcd_spec};
use crate::interpolate::{fft_interpolate, lagrange_interpolate};
use crate::lde::{coset_domain, low_degree_extend, coset_point, subgroup_generator};
use crate::fft::log2_of;
use vstd::arithmetic::power2::pow2;
use crate::fold::{fold_layer, fold_spec};
use crate::merkle::{MerkleTree, MerklePath, hash_leaf, path_root};
use crate::layers::{FriProver, replay_commit_phase, verify_queries, fri_accepts, leaf_hash_spec};
use crate::poly::{pad_to, is_normalized, trim, coeff, poly_eval};
use crate::dft::dft_at;
use crate::fft::stage_root;
use crate::transcript::{Transcript, ChallengeSource};
use crate::cpu_exports::{to_u64s, u64_ints};

verus! {

pub const TRACE_LEN: usize = 8;

pub const BLOWUP: usize = 4;

pub const START: u64 = 3;

pub const STEP: u64 = 2;

/// The trace, its interpolating polynomial and its low-degree extension.
pub struct PolynomialExport {
    pub field_modulus: u64,
    pub trace_len: usize,
    pub trace_values: Vec<u64>,
    pub coefficients: Vec<u64>,
    pub blowup_factor: usize,
    pub domain_offset: u64,
    pub lde_domain: Vec<u64>,
    pub lde_evaluations: Vec<u64>,
}

/// One FRI layer: its domain and values, its Merkle root, and the
/// challenge it is folded with (none for the last layer).
pub struct FriRoundExport {
    pub round: usize,
    pub domain_size: usize,
    pub domain: Vec<u64>,
    pub evaluations: Vec<u64>,
    pub merkle_root: Option<u64>,
    pub beta: Option<u64>,
}

/// All FRI layers and the final polynomial.
pub struct FriExport {
    pub rounds: Vec<FriRoundExport>,
    pub final_poly_coeffs: Vec<u64>,
}

/// A Merkle path as plain numbers.
pub struct MerklePathJson {
    pub leaf_index: usize,
    pub siblings: Vec<u64>,
}

/// One queried trace value with its path.
pub struct QueryJson {
    pub index: usize,
    pub trace_value: u64,
    pub trace_path: MerklePathJson,
}

/// A whole proof and the verifier's verdict on it.
pub struct ProofExport {
    pub statement: String,
    pub start: u64,
    pub step: u64,
    pub end: u64,
    pub trace_root: u64,
    pub num_queries: usize,
    pub queries: Vec<QueryJson>,
    pub fri_layer_roots: Vec<u64>,
    pub fri_final_poly_coeffs: Vec<u64>,
    pub accepted: bool,
}

/// The hasher of the exports: Poseidon over the toy field with `x^5`.
fn hasher() -> (r: Poseidon<ToyField>)
    ensures
        r@.alpha == 5,
        r@ == crate::poseidon::standard_poseidon::<ToyField>(5),
        crate::poseidon::poseidon_wf::<ToyField>(r@),
{
    proof {
        assert(gcd_spec(1, 0) == 1);
        assert(gcd_spec(5, 1) == 1);
        assert(gcd_spec(96, 5) == 1);
        assert(gcd_spec(5, 96) == 1);
    }
    Poseidon::new(5)
}

/// The trace `3, 5, ..., 17`.
fn progression() -> (r: Vec<ToyField>)
    ensures
        r@.len() == TRACE_LEN,
        forall|i: int| 0 <= i < TRACE_LEN ==> #[trigger] vals(r@)[i] == 3 + 2 * i,
{
    let mut trace: Vec<ToyField> = Vec::with_capacity(TRACE_LEN);
    let mut i: u64 = 0;
    while i < TRACE_LEN as u64
        invariant
            i <= TRACE_LEN,
            trace@.len() == i,
            forall|j: int| 0 <= j < i ==> #[trigger] vals(trace@)[j] == 3 + 2 * j,
        decreases TRACE_LEN - i,
    {
        let v = ToyField::from_u64(START + STEP * i);
        proof {
            vstd::arithmetic::div_mod::lemma_small_mod((3 + 2 * i) as nat, 97);
            crate::poly::lemma_vals_push(trace@, v);
        }
        trace.push(v);
        i = i + 1;
    }
    trace
}

/// The polynomial view: the trace, its interpolating polynomial, and its
/// extension to the coset `2 H` of the 32-point subgroup.
pub fn export_polynomial() -> (r: PolynomialExport)
    ensures
        r.field_modulus == 97,
        r.trace_len == TRACE_LEN,
        r.trace_values@.len() == TRACE_LEN,
        forall|i: int| 0 <= i < TRACE_LEN ==> #[trigger] r.trace_values@[i] == 3 + 2 * i,
        is_normalized(u64_ints(r.coefficients@)),
        r.coefficients@.len() <= TRACE_LEN,
        r.blowup_factor == BLOWUP,
        r.domain_offset == 2,
        r.lde_domain@.len() == 32,
        forall|k: int| 0 <= k < 32 ==> #[trigger] r.lde_domain@[k] as int == coset_point(
            2,
            subgroup_generator::<ToyField>(5),
            k as nat,
            97,
        ),
        r.lde_evaluations@.len() == 32,
        forall|i: int| 0 <= i < TRACE_LEN ==> #[trigger] dft_at(
            u64_ints(r.coefficients@),
            stage_root::<ToyField>(3),
            i,
            97,
        ) == 3 + 2 * i,
        forall|k: int| 0 <= k < 32 ==> #[trigger] r.lde_evaluations@[k] as int == poly_eval(
            u64_ints(r.coefficients@),
            coset_point(2, subgroup_generator::<ToyField>(5), k as nat, 97),
            97,
        ),
{
    proof {
        lemma_toy_no_zero_divisors();
        crate::toyfield::lemma_toy_inverses_correct();
        vstd::arithmetic::power2::lemma2_to64();
        crate::fft::lemma_log2_of(5);
    }
    let trace = progression();
    let poly = fft_interpolate(trace.as_slice());
    let coeffs = to_u64s(poly.coeffs());
    let padded = pad_to(poly.coeffs(), TRACE_LEN);
    let offset = ToyField::from_u64(2);
    proof {
        vstd::arithmetic::div_mod::lemma_small_mod(2, 97);
        vstd::arithmetic::power2::lemma2_to64();
        assert(crate::fft::is_pow2_len(8)) by {
            assert(vstd::arithmetic::power2::pow2(3) == 8);
        }
        assert(crate::fft::is_pow2_len(4)) by {
            assert(vstd::arithmetic::power2::pow2(2) == 4);
        }
        assert(crate::fft::is_pow2_len(32)) by {
            assert(vstd::arithmetic::power2::pow2(5) == 32);
        }
    }
    let lde_evals = low_degree_extend(padded.as_slice(), BLOWUP, offset);
    let lde_domain = coset_domain(TRACE_LEN * BLOWUP, offset);
    let trace_values = to_u64s(trace.as_slice());
    let domain_values = to_u64s(lde_domain.as_slice());
    let r = PolynomialExport {
        field_modulus: ToyField::modulus(),
        trace_len: TRACE_LEN,
        trace_values,
        coefficients: coeffs,
        blowup_factor: BLOWUP,
        domain_offset: offset.to_canonical_u64(),
        lde_domain: domain_values,
        lde_evaluations: to_u64s(lde_evals.as_slice()),
    };
    proof {
        assert forall|i: int| 0 <= i < TRACE_LEN implies #[trigger] r.trace_values@[i] == 3 + 2 * i by {
            assert(u64_ints(r.trace_values@)[i] == vals(trace@)[i]);
            assert(u64_ints(r.trace_values@)[i] == r.trace_values@[i] as int);
        }
        assert(u64_ints(r.coefficients@) == poly@);
        assert forall|k: int| 0 <= k < 32 implies #[trigger] r.lde_domain@[k] as int == coset_point(
            2,
            subgroup_generator::<ToyField>(5),
            k as nat,
            97,
        ) by {
            assert(u64_ints(r.lde_domain@)[k] == vals(lde_domain@)[k]);
            assert(u64_ints(r.lde_domain@)[k] == r.lde_domain@[k] as int);
            assert(log2_of(32) == 5);
            assert(offset.val() == 2);
        }
        crate::fft::lemma_log2_of(3);
        assert(log2_of(8) == 3);
        assert forall|i: int| 0 <= i < TRACE_LEN implies #[trigger] dft_at(
            u64_ints(r.coefficients@),
            stage_root::<ToyField>(3),
            i,
            97,
        ) == 3 + 2 * i by {
            assert(vals(trace@)[i] == trace@[i].val());
        }
        assert forall|i: int| #[trigger] coeff(vals(padded@), i) == coeff(poly@, i) by {
            if 0 <= i < TRACE_LEN && i >= poly@.len() {
                assert(padded@[i].val() == 0);
            }
            if 0 <= i < poly@.len() {
                assert(padded@[i] == poly.coeff_seq()[i]);
                poly.lemma_view();
            }
        }
        assert forall|k: int| 0 <= k < 32 implies #[trigger] r.lde_evaluations@[k] as int == poly_eval(
            u64_ints(r.coefficients@),
            coset_point(2, subgroup_generator::<ToyField>(5), k as nat, 97),
            97,
        ) by {
            assert(u64_ints(r.lde_evaluations@)[k] == vals(lde_evals@)[k]);
            assert(u64_ints(r.lde_evaluations@)[k] == r.lde_evaluations@[k] as int);
            assert(vals(lde_evals@)[k] == lde_evals@[k].val());
            crate::poly_laws::lemma_poly_eval_same_coeffs(
                vals(padded@),
                poly@,
                coset_point(2, subgroup_generator::<ToyField>(5), k as nat, 97),
                97,
            );
        }
    }
    r
}


/// The folding challenges of the FRI view: 11, then `7 beta + 1`.
pub open spec fn viz_beta(j: nat) -> int
    decreases j,
{
    if j == 0 {
        11
    } else {
        (viz_beta((j - 1) as nat) * 7 + 1) % 97
    }
}

/// Entry `i` of layer `j + 1` folds the pair at `i` of layer `j`, and
/// its domain point is the square of the one below.
pub open spec fn layer_pair_ok(cur: FriRoundExport, nxt: FriRoundExport, i: int, j: nat) -> bool {
    &&& nxt.evaluations@[i] as int == fold_spec::<ToyField>(
        cur.evaluations@[i] as int,
        cur.evaluations@[i + nxt.domain_size] as int,
        cur.domain@[i] as int,
        viz_beta(j),
    )
    &&& nxt.domain@[i] as int == (cur.domain@[i] as int * cur.domain@[i] as int) % 97
}

/// The FRI view's layers are consistent: each folds the one before it.
pub open spec fn fri_rounds_ok(rounds: Seq<FriRoundExport>) -> bool {
    &&& rounds.len() == 5
    &&& forall|j: int| 0 <= j < 5 ==> {
        let rd = #[trigger] rounds[j];
        &&& rd.round == j
        &&& rd.domain_size == crate::layers::halvings(32, j as nat)
        &&& rd.domain@.len() == rd.domain_size
        &&& rd.evaluations@.len() == rd.domain_size
        &&& rd.merkle_root is Some
        &&& rd.beta == if j < 4 { Some(viz_beta(j as nat) as u64) } else { None }
    }
    &&& forall|j: int, i: int| 0 <= j < 4 && 0 <= i < rounds[j + 1].domain_size ==> #[trigger] layer_pair_ok(
        rounds[j],
        rounds[j + 1],
        i,
        j as nat,
    )
}

/// The FRI view for the coset `offset * H`: every layer from the
/// extension of the trace down to two points, folded with the fixed
/// challenges `viz_beta`, and the constant through the first point of the
/// last layer.
fn export_fri_rounds(offset: ToyField) -> (r: FriExport)
    requires
        offset.val() != 0,
    ensures
        fri_rounds_ok(r.rounds@),
        r.final_poly_coeffs@.len() == 1,
        r.final_poly_coeffs@[0] == r.rounds@[4].evaluations@[0],
{
    proof {
        lemma_toy_no_zero_divisors();
        crate::toyfield::lemma_toy_inverses_correct();
        vstd::arithmetic::power2::lemma2_to64();
        crate::fft::lemma_log2_of(5);
        assert(crate::fft::is_pow2_len(8)) by {
            assert(vstd::arithmetic::power2::pow2(3) == 8);
        }
        assert(crate::fft::is_pow2_len(4)) by {
            assert(vstd::arithmetic::power2::pow2(2) == 4);
        }
        assert(crate::fft::is_pow2_len(32)) by {
            assert(vstd::arithmetic::power2::pow2(5) == 32);
        }
        ToyField::lemma_val_range(offset);
    }
    let trace = progression();
    let poly = fft_interpolate(trace.as_slice());
    let coeffs = pad_to(poly.coeffs(), TRACE_LEN);
    let mut evals = low_degree_extend(coeffs.as_slice(), BLOWUP, offset);
    let mut domain = coset_domain(TRACE_LEN * BLOWUP, offset);
    let ghost off = offset.val();
    let ghost g = crate::layers::fri_generator::<ToyField>(32);
    proof {
        assert forall|i: int| 0 <= i < 32 implies #[trigger] vals(domain@)[i] == crate::fold::domain_point_spec::<ToyField>(off, g, i as nat, 0) by {
            crate::layers::lemma_coset_point_is_domain_point::<ToyField>(off, g, i as nat);
        }
    }
    let h = hasher();
    let mut rounds: Vec<FriRoundExport> = Vec::new();
    let final_layer_size: usize = 2;
    let mut round_idx: usize = 0;
    let mut beta_seed = ToyField::from_u64(11);
    proof {
        vstd::arithmetic::div_mod::lemma_small_mod(11, 97);
    }
    loop
        invariant_except_break
            rounds@.len() == round_idx,
            fri_rounds_prefix_ok(rounds@, round_idx as nat),
            round_idx > 0 ==> fold_step_ok(rounds@.last(), vals(evals@), vals(domain@), viz_beta((round_idx - 1) as nat)),
        invariant
            round_idx <= 4,
            evals@.len() == crate::layers::halvings(32, round_idx as nat),
            evals@.len() == vstd::arithmetic::power2::pow2((5 - round_idx) as nat),
            domain@.len() == evals@.len(),
            forall|i: int| 0 <= i < domain@.len() ==> #[trigger] vals(domain@)[i] == crate::fold::domain_point_spec::<ToyField>(
                off,
                g,
                i as nat,
                round_idx as nat,
            ),
            0 < off < 97,
            crate::fft::no_zero_divisors::<ToyField>(),
            beta_seed.val() == viz_beta(round_idx as nat),
            final_layer_size == 2,
            g == crate::layers::fri_generator::<ToyField>(32),
        ensures
            fri_rounds_ok(rounds@),
            domain@.len() == 2,
            evals@.len() == 2,
            u64_ints(rounds@[4].evaluations@) == vals(evals@),
        decreases 5 - round_idx,
    {
        proof {
            vstd::arithmetic::power2::lemma2_to64();
            lemma_halvings_pow2_32(round_idx as nat);
            assert(crate::fft::is_pow2_len(32)) by {
                assert(vstd::arithmetic::power2::pow2(5) == 32);
            }
            assert(crate::fft::is_pow2_len(evals@.len()));
        }
        let round = make_round(&h, round_idx, &evals, &domain, beta_seed, final_layer_size);
        let ghost before = rounds@;
        rounds.push(round);
        if evals.len() <= final_layer_size {
            proof {
                if round_idx < 4 {
                    crate::fft::lemma_pow2_le(2, (5 - round_idx) as nat);
                }
                assert(round_idx == 4);
                lemma_rounds_complete(rounds@, before, round);
            }
            break;
        }
        proof {
            assert forall|i: int| 0 <= i < evals@.len() / 2 implies #[trigger] domain@[i].val() != 0 by {
                crate::layers::lemma_domain_point_nonzero::<ToyField>(off, 32, i as nat, round_idx as nat);
                assert(vals(domain@)[i] == domain@[i].val());
            }
        }
        let ghost prev_domain = vals(domain@);
        let ghost prev_evals = vals(evals@);
        let (next_evals, next_domain) = fold_layer(evals.as_slice(), domain.as_slice(), beta_seed);
        evals = next_evals;
        domain = next_domain;
        proof {
            assert forall|i: int| 0 <= i < domain@.len() implies #[trigger] vals(domain@)[i] == crate::fold::domain_point_spec::<ToyField>(
                off,
                g,
                i as nat,
                (round_idx + 1) as nat,
            ) by {
                let base = crate::field::fm(off, crate::field::pow_mod(g, i as nat, 97), 97);
                crate::field::lemma_square_pow2_mod(base, round_idx as nat, 97);
                assert(prev_domain[i] == crate::fold::domain_point_spec::<ToyField>(off, g, i as nat, round_idx as nat));
                reveal(crate::fold::domain_point_spec);
            }
            lemma_prefix_extends(before, round, rounds@, round_idx as nat);
            vstd::arithmetic::power2::lemma_pow2_unfold((5 - round_idx) as nat);
        }
        let ghost b0 = beta_seed.val();
        let seven = ToyField::from_u64(7);
        let one = ToyField::one();
        beta_seed = beta_seed.fmul(seven).fadd(one);
        proof {
            lemma_viz_beta_step(round_idx as nat, b0, seven.val(), one.val(), beta_seed.val());
            lemma_fold_step(round, prev_evals, prev_domain, vals(evals@), vals(domain@), viz_beta(round_idx as nat));
        }
        round_idx = round_idx + 1;
    }
    let points = vec![(domain[0], evals[0])];
    proof {
        crate::fft::lemma_pow2_le(0, (5 - round_idx) as nat);
        assert(crate::interpolate::distinct_xs(points@));
    }
    let final_poly = lagrange_interpolate(points.as_slice());
    let r = FriExport { rounds, final_poly_coeffs: to_u64s(final_poly.coeffs()) };
    proof {
        let c = final_poly@;
        assert(c.len() == 1);
        assert(c.drop_first().len() == 0);
        assert(poly_eval(c.drop_first(), domain@[0].val(), 97) == 0);
        assert(domain@[0].val() * 0 == 0);
        ToyField::lemma_val_range(evals@[0]);
        assert(poly_eval(c, points@[0].0.val(), 97) == points@[0].1.val());
        assert(u64_ints(r.final_poly_coeffs@)[0] == c[0]);
        assert(u64_ints(r.final_poly_coeffs@)[0] == r.final_poly_coeffs@[0] as int);
        assert(u64_ints(r.rounds@[4].evaluations@)[0] == vals(evals@)[0]);
        assert(u64_ints(r.rounds@[4].evaluations@)[0] == r.rounds@[4].evaluations@[0] as int);
        final_poly.lemma_view();
        ToyField::lemma_val_range(final_poly.coeff_seq()[0]);
        assert(c[0] == final_poly.coeff_seq()[0].val());
        vstd::arithmetic::div_mod::lemma_small_mod(c[0] as nat, 97);
    }
    r
}

/// One layer of the FRI view, with the Merkle root of its values.
fn make_round(
    h: &Poseidon<ToyField>,
    round_idx: usize,
    evals: &Vec<ToyField>,
    domain: &Vec<ToyField>,
    beta_seed: ToyField,
    final_layer_size: usize,
) -> (r: FriRoundExport)
    requires
        crate::fft::is_pow2_len(evals@.len()),
        evals@.len() > 0,
    ensures
        r.round == round_idx,
        r.domain_size == evals@.len(),
        u64_ints(r.domain@) == vals(domain@),
        r.domain@.len() == domain@.len(),
        u64_ints(r.evaluations@) == vals(evals@),
        r.evaluations@.len() == evals@.len(),
        r.merkle_root is Some,
        r.beta == if evals@.len() > final_layer_size { Some(beta_seed.val() as u64) } else { None },
{
    let tree = MerkleTree::from_values(h, evals.as_slice());
    let root = tree.root();
    let beta = if evals.len() > final_layer_size {
        Some(beta_seed.to_canonical_u64())
    } else {
        None
    };
    FriRoundExport {
        round: round_idx,
        domain_size: evals.len(),
        domain: to_u64s(domain.as_slice()),
        evaluations: to_u64s(evals.as_slice()),
        merkle_root: Some(root.to_canonical_u64()),
        beta,
    }
}

/// The next challenge of the FRI view.
proof fn lemma_viz_beta_step(j: nat, b0: int, seven: int, one: int, b1: int)
    requires
        b0 == viz_beta(j),
        seven == 7int % 97,
        one == 1,
        b1 == (((b0 * seven) % 97) + one) % 97,
    ensures
        b1 == viz_beta(j + 1),
{
    vstd::arithmetic::div_mod::lemma_small_mod(7, 97);
    vstd::arithmetic::div_mod::lemma_add_mod_noop(b0 * 7, 1, 97);
    vstd::arithmetic::div_mod::lemma_mod_twice(b0 * 7, 97);
    vstd::arithmetic::div_mod::lemma_small_mod(1, 97);
}

/// A layer and the fold of its values and domain.
proof fn lemma_fold_step(
    round: FriRoundExport,
    prev_evals: Seq<int>,
    prev_domain: Seq<int>,
    evals: Seq<int>,
    domain: Seq<int>,
    beta: int,
)
    requires
        u64_ints(round.evaluations@) == prev_evals,
        u64_ints(round.domain@) == prev_domain,
        round.domain_size == prev_evals.len(),
        prev_domain.len() == prev_evals.len(),
        evals.len() == prev_evals.len() / 2,
        domain.len() == evals.len(),
        forall|i: int| 0 <= i < evals.len() ==> #[trigger] evals[i] == fold_spec::<ToyField>(
            prev_evals[i],
            prev_evals[i + prev_evals.len() / 2],
            prev_domain[i],
            beta,
        ),
        forall|i: int| 0 <= i < evals.len() ==> #[trigger] domain[i] == crate::field::fm(prev_domain[i], prev_domain[i], 97),
    ensures
        fold_step_ok(round, evals, domain, beta),
{
    assert forall|i: int| 0 <= i < evals.len() implies #[trigger] evals[i] == fold_spec::<ToyField>(
        round.evaluations@[i] as int,
        round.evaluations@[i + evals.len()] as int,
        round.domain@[i] as int,
        beta,
    ) by {
        assert(u64_ints(round.evaluations@)[i] == round.evaluations@[i] as int);
        assert(u64_ints(round.evaluations@)[i + evals.len()] == round.evaluations@[i + evals.len()] as int);
        assert(u64_ints(round.domain@)[i] == round.domain@[i] as int);
    }
    assert forall|i: int| 0 <= i < domain.len() implies #[trigger] domain[i] == (round.domain@[i] as int * round.domain@[i] as int) % 97 by {
        assert(u64_ints(round.domain@)[i] == round.domain@[i] as int);
    }
}

/// `round` folds, with challenge `beta`, into the values `evals` on `domain`.
pub open spec fn fold_step_ok(round: FriRoundExport, evals: Seq<int>, domain: Seq<int>, beta: int) -> bool {
    &&& evals.len() == round.domain_size / 2
    &&& forall|i: int| 0 <= i < evals.len() ==> #[trigger] evals[i] == fold_spec::<ToyField>(
        round.evaluations@[i] as int,
        round.evaluations@[i + evals.len()] as int,
        round.domain@[i] as int,
        beta,
    )
    &&& forall|i: int| 0 <= i < domain.len() ==> #[trigger] domain[i] == (round.domain@[i] as int * round.domain@[i] as int) % 97
}

/// The first `k` rounds of the FRI view are consistent.
pub open spec fn fri_rounds_prefix_ok(rounds: Seq<FriRoundExport>, k: nat) -> bool {
    &&& rounds.len() == k
    &&& forall|j: int| 0 <= j < k ==> {
        let rd = #[trigger] rounds[j];
        &&& rd.round == j
        &&& rd.domain_size == crate::layers::halvings(32, j as nat)
        &&& rd.domain@.len() == rd.domain_size
        &&& rd.evaluations@.len() == rd.domain_size
        &&& rd.merkle_root is Some
        &&& rd.beta == if j < 4 { Some(viz_beta(j as nat) as u64) } else { None }
    }
    &&& forall|j: int, i: int| 0 <= j < k - 1 && 0 <= i < rounds[j + 1].domain_size ==> #[trigger] layer_pair_ok(
        rounds[j],
        rounds[j + 1],
        i,
        j as nat,
    )
}

proof fn lemma_halvings_pow2_32(j: nat)
    requires
        j <= 5,
    ensures
        crate::layers::halvings(32, j) == vstd::arithmetic::power2::pow2((5 - j) as nat),
{
    vstd::arithmetic::power2::lemma2_to64();
    crate::layers::lemma_halvings_pow2(5, j);
}

/// Appending a round keeps the prefix consistent.
proof fn lemma_prefix_extends(before: Seq<FriRoundExport>, round: FriRoundExport, after: Seq<FriRoundExport>, k: nat)
    requires
        after == before.push(round),
        fri_rounds_prefix_ok(before, k),
        k > 0 ==> fold_step_ok(before.last(), u64_ints(round.evaluations@), u64_ints(round.domain@), viz_beta((k - 1) as nat)),
        round.round == k,
        round.domain_size == crate::layers::halvings(32, k),
        round.domain@.len() == round.domain_size,
        round.evaluations@.len() == round.domain_size,
        round.merkle_root is Some,
        round.beta == if k < 4 { Some(viz_beta(k) as u64) } else { None },
        k < 5,
    ensures
        fri_rounds_prefix_ok(after, k + 1),
{
    assert forall|j: int| 0 <= j < k + 1 implies {
        let rd = #[trigger] after[j];
        &&& rd.round == j
        &&& rd.domain_size == crate::layers::halvings(32, j as nat)
        &&& rd.domain@.len() == rd.domain_size
        &&& rd.evaluations@.len() == rd.domain_size
        &&& rd.merkle_root is Some
        &&& rd.beta == if j < 4 { Some(viz_beta(j as nat) as u64) } else { None }
    } by {
        if j < k {
            assert(after[j] == before[j]);
        }
    }
    assert forall|j: int, i: int| 0 <= j < k && 0 <= i < after[j + 1].domain_size implies #[trigger] layer_pair_ok(
        after[j],
        after[j + 1],
        i,
        j as nat,
    ) by {
        assert(after[j] == before[j]);
        if j + 1 < k {
            assert(after[j + 1] == before[j + 1]);
        } else {
            assert(after[j + 1] == round);
            assert(before.last() == before[j]);
            assert(u64_ints(round.evaluations@)[i] == round.evaluations@[i] as int);
            assert(u64_ints(round.domain@)[i] == round.domain@[i] as int);
        }
    }
}

/// The last round completes the view.
proof fn lemma_rounds_complete(after: Seq<FriRoundExport>, before: Seq<FriRoundExport>, round: FriRoundExport)
    requires
        after == before.push(round),
        fri_rounds_prefix_ok(before, 4),
        fold_step_ok(before.last(), u64_ints(round.evaluations@), u64_ints(round.domain@), viz_beta(3)),
        round.round == 4,
        round.domain_size == crate::layers::halvings(32, 4),
        round.domain@.len() == round.domain_size,
        round.evaluations@.len() == round.domain_size,
        round.merkle_root is Some,
        round.beta is None,
    ensures
        fri_rounds_ok(after),
{
    lemma_prefix_extends(before, round, after, 4);
}

/// The FRI view for the coset `2 H`.
pub fn export_fri() -> (r: FriExport)
    ensures
        fri_rounds_ok(r.rounds@),
        r.final_poly_coeffs@.len() == 1,
        r.final_poly_coeffs@[0] == r.rounds@[4].evaluations@[0],
{
    let offset = ToyField::from_u64(2);
    proof {
        vstd::arithmetic::div_mod::lemma_small_mod(2, 97);
    }
    export_fri_rounds(offset)
}


/// The constraint combination of the proof view at `x`: the transition,
/// start and end quotients weighted by `alpha`, `alpha^2` and `alpha^3`.
pub open spec fn viz_composition(x: int, a_here: int, a_next: int, alpha: int) -> int {
    let p = 97;
    let last = crate::toystark::air::last_trace_point::<ToyField>(8);
    let vanishing_h = crate::field::fs(crate::field::pow_mod(x, 8, p), 1, p);
    let trans_num = crate::field::fs(crate::field::fs(a_next, a_here, p), 2, p);
    let trans_zero = crate::field::fm(vanishing_h, ToyField::inv_val(crate::field::fs(x, last, p)), p);
    let trans_q = crate::field::fm(trans_num, ToyField::inv_val(trans_zero), p);
    let start_q = crate::field::fm(crate::field::fs(a_here, 3, p), ToyField::inv_val(crate::field::fs(x, 1, p)), p);
    let end_q = crate::field::fm(crate::field::fs(a_here, 17, p), ToyField::inv_val(crate::field::fs(x, last, p)), p);
    let a2 = crate::field::fm(alpha, alpha, p);
    let a3 = crate::field::fm(a2, alpha, p);
    crate::field::fa(
        crate::field::fa(crate::field::fm(alpha, trans_q, p), crate::field::fm(a2, start_q, p), p),
        crate::field::fm(a3, end_q, p),
        p,
    )
}

/// The proof view's combination is the composition with the challenges
/// `alpha`, `alpha^2` and `alpha^3`.
proof fn lemma_viz_composition_is_composition(x: int, a_here: int, a_next: int, alpha: int)
    ensures
        viz_composition(x, a_here, a_next, alpha) == crate::toystark::air::composition_spec::<ToyField>(
            x,
            a_here,
            a_next,
            8,
            crate::toystark::air::last_trace_point::<ToyField>(8),
            crate::toystark::air::progression_value::<ToyField>(3, 2, 7),
            3,
            2,
            (alpha, crate::field::fm(alpha, alpha, 97), crate::field::fm(crate::field::fm(alpha, alpha, 97), alpha, 97)),
        ),
{
    vstd::arithmetic::div_mod::lemma_small_mod(7, 97);
    vstd::arithmetic::div_mod::lemma_small_mod(14, 97);
    vstd::arithmetic::div_mod::lemma_small_mod(17, 97);
    assert(crate::toystark::air::progression_value::<ToyField>(3, 2, 7) == 17);
}

/// The FRI checks of the proof view pass: its first layer holds the
/// composition of the honest trace, a polynomial with at most 8
/// coefficients, and the final polynomial has one coefficient.
proof fn lemma_viz_fri_complete(
    h: PoseidonView,
    layers: Seq<Seq<int>>,
    trees: Seq<crate::merkle::MerkleTreeView>,
    betas: Seq<int>,
    proof: crate::layers::FriCommitPhaseProof<ToyField>,
    indices: Seq<usize>,
    openings: Seq<Vec<crate::layers::FriRoundOpening<ToyField>>>,
    t: Seq<int>,
    lde: Seq<int>,
    alpha: int,
)
    requires
        crate::layers::prover_layers_ok::<ToyField>(layers, trees, h, 32),
        crate::layers::layers_fold::<ToyField>(layers, betas, 2, 32),
        layers.len() == 5,
        betas.len() == 4,
        trees.len() == 4,
        proof.layer_roots@.len() == 4,
        forall|j: int| 0 <= j < 4 ==> #[trigger] vals(proof.layer_roots@)[j] == trees[j].layers.last()[0],
        is_normalized(vals(proof.final_poly_coeffs@)),
        proof.final_poly_coeffs@.len() <= 1,
        poly_eval(
            vals(proof.final_poly_coeffs@),
            crate::fold::domain_point_spec::<ToyField>(2, crate::layers::fri_generator::<ToyField>(32), 0, 4),
            97,
        ) == layers[4][0],
        openings.len() == indices.len(),
        forall|q: int| 0 <= q < openings.len() ==> (#[trigger] openings[q])@.len() == 4,
        forall|q: int, j: int|
            0 <= q < openings.len() && 0 <= j < 4 ==> #[trigger] crate::layers::honest_opening::<ToyField>(
                layers,
                trees,
                32,
                indices[q] as nat,
                j,
                openings[q]@[j],
            ),
        t.len() <= 8,
        forall|j: int| 0 <= j < 8 ==> #[trigger] dft_at(t, stage_root::<ToyField>(3), j, 97) == 3 + 2 * j,
        lde.len() == 32,
        forall|j: int| 0 <= j < 32 ==> #[trigger] lde[j] == poly_eval(t, viz_point(j as nat), 97),
        layers[0].len() == 32,
        forall|j: int| 0 <= j < 32 ==> #[trigger] layers[0][j] == viz_composition(
            viz_point(j as nat),
            lde[j],
            lde[(j + 4) % 32],
            alpha,
        ),
        forall|k: nat| k < 32 ==> #[trigger] crate::toystark::air::composition_defined::<ToyField>(
            viz_point(k),
            8,
            crate::toystark::air::last_trace_point::<ToyField>(8),
        ),
    ensures
        fri_accepts::<ToyField>(h, proof, betas, 2, 32, 2, 1, indices, openings),
{
    crate::toyfield::lemma_toy_inverses_correct();
    lemma_toy_no_zero_divisors();
    vstd::arithmetic::power2::lemma2_to64();
    crate::fft::lemma_log2_of(5);
    ToyField::lemma_modulus();
    let al = (alpha, crate::field::fm(alpha, alpha, 97), crate::field::fm(crate::field::fm(alpha, alpha, 97), alpha, 97));
    assert forall|j: int| 0 <= j < 8 implies #[trigger] dft_at(t, stage_root::<ToyField>(3), j, 97)
        == crate::toystark::air::progression_value::<ToyField>(3, 2, j) by {
        vstd::arithmetic::div_mod::lemma_small_mod(j as nat, 97);
        vstd::arithmetic::div_mod::lemma_small_mod((2 * j) as nat, 97);
        vstd::arithmetic::div_mod::lemma_small_mod((3 + 2 * j) as nat, 97);
    }
    assert forall|j: int| 0 <= j < 32 implies #[trigger] layers[0][j] == crate::toystark::air::composition_spec::<ToyField>(
        coset_point(2, stage_root::<ToyField>(5), j as nat, 97),
        lde[j],
        lde[(j + pow2(((5 - 3) as nat))) % (pow2(5) as int)],
        pow2(3),
        crate::toystark::air::last_trace_point::<ToyField>(pow2(3)),
        crate::toystark::air::progression_value::<ToyField>(3, 2, pow2(3) - 1),
        3,
        2,
        al,
    ) by {
        lemma_viz_composition_is_composition(viz_point(j as nat), lde[j], lde[(j + 4) % 32], alpha);
    }
    assert forall|j: int| 0 <= j < 32 implies #[trigger] lde[j] == poly_eval(t, coset_point(2, stage_root::<ToyField>(5), j as nat, 97), 97) by {}
    assert forall|j: int| 0 <= j < 32 implies #[trigger] crate::toystark::air::composition_defined::<ToyField>(
        coset_point(2, stage_root::<ToyField>(5), j as nat, 97),
        pow2(3),
        crate::toystark::air::last_trace_point::<ToyField>(pow2(3)),
    ) by {
        assert(viz_point(j as nat) == coset_point(2, stage_root::<ToyField>(5), j as nat, 97));
    }
    crate::toystark::composition::lemma_composition_layer::<ToyField>(t, lde, layers[0], 3, 5, 2, 3, 2, al);
    let c = crate::toystark::composition::composition_poly::<ToyField>(t, 3, 3, 2, al);
    crate::layers::lemma_halvings_pow2(5, 4);
    crate::fri_laws::lemma_honest_fri_accepted::<ToyField>(h, layers, trees, betas, proof, 2, 32, 2, 1, indices, openings, c);
}

/// The `k`-th point of the proof view's coset `2 H`.
pub open spec fn viz_point(k: nat) -> int {
    coset_point(2, subgroup_generator::<ToyField>(5), k, 97)
}

fn viz_composition_at(
    x: ToyField,
    a_here: ToyField,
    a_next: ToyField,
    last: ToyField,
    alpha: ToyField,
) -> (r: ToyField)
    requires
        last.val() == crate::toystark::air::last_trace_point::<ToyField>(8),
        crate::toystark::air::composition_defined::<ToyField>(x.val(), 8, last.val()),
    ensures
        r.val() == viz_composition(x.val(), a_here.val(), a_next.val(), alpha.val()),
{
    proof {
        vstd::arithmetic::div_mod::lemma_small_mod(2, 97);
        vstd::arithmetic::div_mod::lemma_small_mod(3, 97);
        vstd::arithmetic::div_mod::lemma_small_mod(17, 97);
    }
    let one = ToyField::one();
    let step = ToyField::from_u64(STEP);
    let start = ToyField::from_u64(START);
    let end = ToyField::from_u64(17);
    let vanishing_h = x.pow(TRACE_LEN as u64).fsub(one);
    let trans_num = a_next.fsub(a_here).fsub(step);
    let trans_zero = vanishing_h.fmul(x.fsub(last).inverse().unwrap());
    let trans_q = trans_num.fmul(trans_zero.inverse().unwrap());
    let start_q = a_here.fsub(start).fmul(x.fsub(one).inverse().unwrap());
    let end_q = a_here.fsub(end).fmul(x.fsub(last).inverse().unwrap());
    let a2 = alpha.fmul(alpha);
    let a3 = a2.fmul(alpha);
    alpha.fmul(trans_q).fadd(a2.fmul(start_q)).fadd(a3.fmul(end_q))
}

/// What the proof view's transcript absorbs before its challenge.
pub open spec fn viz_prelude(root: int) -> Seq<crate::transcript::TranscriptEvent> {
    seq![
        crate::transcript::TranscriptEvent::Absorbed(
            crate::transcript::fnv1a_spec("viz-export-arith-progression-v1".spec_bytes()) as int % 97,
        ),
        crate::transcript::TranscriptEvent::Absorbed(8),
        crate::transcript::TranscriptEvent::Absorbed(3),
        crate::transcript::TranscriptEvent::Absorbed(2),
        crate::transcript::TranscriptEvent::Absorbed(root),
    ]
}

/// The log once the challenge is drawn.
pub open spec fn viz_alpha_log(h: PoseidonView, root: int) -> Seq<crate::transcript::TranscriptEvent> {
    let pre = viz_prelude(root);
    pre.push(
        crate::transcript::TranscriptEvent::Squeezed(
            crate::transcript::squeeze_spec(h, crate::transcript::log_state(h, pre, 97), 97).1,
        ),
    )
}

/// The query indices the verifier of the proof view derives.
pub open spec fn viz_indices(
    h: PoseidonView,
    root: int,
    proof: crate::layers::FriCommitPhaseProof<ToyField>,
    bound: nat,
) -> Seq<usize> {
    let s = crate::transcript::log_state(
        h,
        crate::transcript::replayed_log(h, viz_alpha_log(h, root), vals(proof.layer_roots@), 97)
            + crate::layers::absorb_events(vals(proof.final_poly_coeffs@)),
        97,
    );
    Seq::new(
        6,
        |q: int| (crate::transcript::squeeze_spec(h, crate::cpu_verifier::sponge_after_squeezes(h, s, q as nat, 97), 97).1
            % (bound as int)) as usize,
    )
}

/// The verifier's side of the proof view: replays the transcript and runs
/// the FRI query checks on the indices it derives.
fn verify_viz_proof(
    h: &Poseidon<ToyField>,
    trace_root: ToyField,
    proof: &crate::layers::FriCommitPhaseProof<ToyField>,
    indices: &Vec<usize>,
    openings: &Vec<Vec<crate::layers::FriRoundOpening<ToyField>>>,
    bound: usize,
) -> (r: bool)
    requires
        bound >= 1,
    ensures
        r == (indices@ == viz_indices(h@, trace_root.val(), *proof, bound as nat) && fri_accepts::<ToyField>(
            h@,
            *proof,
            crate::transcript::replayed_challenges(h@, viz_alpha_log(h@, trace_root.val()), vals(proof.layer_roots@), 97),
            2,
            32,
            2,
            1,
            viz_indices(h@, trace_root.val(), *proof, bound as nat),
            openings@,
        )),
{
    proof {
        lemma_toy_no_zero_divisors();
        vstd::arithmetic::power2::lemma2_to64();
        vstd::arithmetic::div_mod::lemma_small_mod(2, 97);
        vstd::arithmetic::div_mod::lemma_small_mod(3, 97);
        vstd::arithmetic::div_mod::lemma_small_mod(8, 97);
        assert(crate::fft::is_pow2_len(32)) by {
            assert(vstd::arithmetic::power2::pow2(5) == 32);
        }
    }
    let ghost hv = h@;
    let start = ToyField::from_u64(START);
    let step = ToyField::from_u64(STEP);
    let mut t = Transcript::new(h, "viz-export-arith-progression-v1");
    t.absorb_u64(TRACE_LEN as u64);
    t.absorb(start);
    t.absorb(step);
    t.absorb(trace_root);
    t.check_log();
    proof {
        assert(t.log() =~= viz_prelude(trace_root.val()));
    }
    let _alpha = t.squeeze_field();
    let ghost before = t.log();
    proof {
        assert(before =~= viz_alpha_log(hv, trace_root.val()));
    }
    let betas = replay_commit_phase(proof, &mut t);
    t.check_log();
    proof {
        let roots = vals(proof.layer_roots@);
        let tail = crate::layers::absorb_events(vals(proof.final_poly_coeffs@));
        crate::transcript::lemma_log_valid_prefix(hv, before + crate::layers::round_events(roots, vals(betas@)), tail, 97);
        crate::layers::lemma_round_events_replayed(hv, before, roots, vals(betas@), 97);
    }
    let ghost sq = t.sponge();
    let mut vindices: Vec<usize> = Vec::with_capacity(6);
    let mut q: usize = 0;
    while q < 6
        invariant
            q <= 6,
            bound >= 1,
            t.hasher_view() == hv,
            vindices@.len() == q,
            t.sponge() == crate::cpu_verifier::sponge_after_squeezes(hv, sq, q as nat, 97),
            forall|j: int| 0 <= j < q ==> #[trigger] vindices@[j] == (crate::transcript::squeeze_spec(
                hv,
                crate::cpu_verifier::sponge_after_squeezes(hv, sq, j as nat, 97),
                97,
            ).1 % (bound as int)) as usize,
        decreases 6 - q,
    {
        vindices.push(t.squeeze_index(bound));
        q = q + 1;
    }
    proof {
        assert(vindices@ =~= viz_indices(hv, trace_root.val(), *proof, bound as nat));
    }
    let same = vec_eq(indices, &vindices);
    let offset = ToyField::from_u64(2);
    let ok = same && verify_queries(
        h,
        proof,
        betas.as_slice(),
        offset,
        TRACE_LEN * BLOWUP,
        2,
        1,
        vindices.as_slice(),
        openings.as_slice(),
    );
    ok
}

/// Are the two index lists equal?
fn vec_eq(a: &Vec<usize>, b: &Vec<usize>) -> (r: bool)
    ensures
        r == (a@ == b@),
{
    if a.len() != b.len() {
        return false;
    }
    let mut i: usize = 0;
    while i < a.len()
        invariant
            i <= a@.len(),
            a@.len() == b@.len(),
            forall|j: int| 0 <= j < i ==> a@[j] == b@[j],
        decreases a@.len() - i,
    {
        if a[i] != b[i] {
            return false;
        }
        i = i + 1;
    }
    proof {
        assert(a@ =~= b@);
    }
    true
}

/// The coset `2 H` of the 32-point subgroup lies off the 8-point trace
/// domain: `2^32` is not one modulo 97, so every zerofier of the
/// composition is nonzero on it.
proof fn lemma_viz_coset_defined()
    ensures
        forall|k: nat| k < 32 ==> #[trigger] crate::toystark::air::composition_defined::<ToyField>(
            viz_point(k),
            8,
            crate::toystark::air::last_trace_point::<ToyField>(8),
        ),
{
    crate::toyfield::lemma_toy_inverses_correct();
    lemma_toy_no_zero_divisors();
    vstd::arithmetic::power2::lemma2_to64();
    crate::fft::lemma_log2_of(5);
    assert(crate::fft::is_pow2_len(8)) by {
        assert(vstd::arithmetic::power2::pow2(3) == 8);
    }
    assert(crate::fft::is_pow2_len(32)) by {
        assert(vstd::arithmetic::power2::pow2(5) == 32);
    }
    crate::field::lemma_chain_start(2, 97);
    crate::field::lemma_square_chain(2, 0, 2, 4, 97);
    crate::field::lemma_square_chain(2, 1, 4, 16, 97);
    crate::field::lemma_square_chain(2, 2, 16, 62, 97);
    crate::field::lemma_square_chain(2, 3, 62, 61, 97);
    crate::field::lemma_square_chain(2, 4, 61, 35, 97);
    assert(crate::field::pow_mod(2, 32, 97) == 35);
    assert forall|k: nat| k < 32 implies #[trigger] crate::toystark::air::composition_defined::<ToyField>(
        viz_point(k),
        8,
        crate::toystark::air::last_trace_point::<ToyField>(8),
    ) by {
        crate::toystark::composition::lemma_coset_outside_trace_domain::<ToyField>(2, 8, 32, k);
    }
}

/// The proof view: a whole proof for the arithmetic progression, with the
/// query openings of the trace and the FRI commitment, and whether the
/// verifier, replaying the transcript, accepts it.
#[verifier::spinoff_prover]
#[verifier::rlimit(100)]
pub fn export_proof() -> (r: ProofExport)
    ensures
        r.statement@ == "a_0=3, a_i+1=a_i+2, trace_len=8"@,
        r.start == 3,
        r.step == 2,
        r.end == 17,
        r.num_queries == 6,
        r.queries@.len() == 6,
        r.accepted,
        r.fri_layer_roots@.len() == 4,
        r.fri_final_poly_coeffs@.len() == 1,
        forall|q: int| 0 <= q < 6 ==> (#[trigger] r.queries@[q]).trace_path.siblings@.len() == 5,
        forall|q: int| 0 <= q < 6 ==> {
            let qj = #[trigger] r.queries@[q];
            let h = crate::poseidon::standard_poseidon::<ToyField>(5);
            &&& qj.index < 16
            &&& qj.trace_path.leaf_index == qj.index
            &&& path_root(
                h,
                leaf_hash_spec(h, qj.trace_value as int, 97),
                qj.index as nat,
                u64_ints(qj.trace_path.siblings@),
                97,
            ) == r.trace_root as int
        },
{
    proof {
        lemma_toy_no_zero_divisors();
        vstd::arithmetic::power2::lemma2_to64();
        crate::fft::lemma_log2_of(5);
        crate::fft::lemma_log2_of(3);
        vstd::arithmetic::div_mod::lemma_small_mod(2, 97);
        vstd::arithmetic::div_mod::lemma_small_mod(3, 97);
        assert(crate::fft::is_pow2_len(8)) by {
            assert(vstd::arithmetic::power2::pow2(3) == 8);
        }
        assert(crate::fft::is_pow2_len(4)) by {
            assert(vstd::arithmetic::power2::pow2(2) == 4);
        }
        assert(crate::fft::is_pow2_len(32)) by {
            assert(vstd::arithmetic::power2::pow2(5) == 32);
        }
        assert(crate::fft::is_pow2_len(2)) by {
            assert(vstd::arithmetic::power2::pow2(1) == 2);
        }
        assert(crate::fft::is_pow2_len(1)) by {
            assert(vstd::arithmetic::power2::pow2(0) == 1);
        }
    }
    let h = hasher();
    let ghost hv = h@;
    let start = ToyField::from_u64(START);
    let step = ToyField::from_u64(STEP);
    let end = start.fadd(step.fmul(ToyField::from_u64((TRACE_LEN - 1) as u64)));
    let trace = progression();
    let poly = fft_interpolate(trace.as_slice());
    let coeffs = pad_to(poly.coeffs(), TRACE_LEN);
    let offset = ToyField::from_u64(2);
    let lde_evals = low_degree_extend(coeffs.as_slice(), BLOWUP, offset);
    let big_n = TRACE_LEN * BLOWUP;
    let trace_tree = MerkleTree::from_values(&h, lde_evals.as_slice());
    trace_tree.check_wf();
    let trace_root = trace_tree.root();
    let mut transcript = Transcript::new(&h, "viz-export-arith-progression-v1");
    transcript.absorb_u64(TRACE_LEN as u64);
    transcript.absorb(start);
    transcript.absorb(step);
    transcript.absorb(trace_root);
    transcript.check_log();
    proof {
        assert(transcript.log() =~= viz_prelude(trace_root.val()));
    }
    let alpha = transcript.squeeze_field();
    proof {
        assert(transcript.log() =~= viz_alpha_log(hv, trace_root.val()));
    }
    let ghost alpha_log = transcript.log();
    let last = crate::toystark::air::last_point_of::<ToyField>(TRACE_LEN);
    let domain = coset_domain(big_n, offset);
    proof {
        lemma_viz_coset_defined();
    }
    let mut composition: Vec<ToyField> = Vec::with_capacity(big_n);
    let mut k: usize = 0;
    while k < big_n
        invariant
            k <= big_n,
            big_n == 32,
            lde_evals@.len() == 32,
            domain@.len() == 32,
            composition@.len() == k,
            last.val() == crate::toystark::air::last_trace_point::<ToyField>(8),
            forall|j: int| 0 <= j < 32 ==> #[trigger] vals(domain@)[j] == viz_point(j as nat),
            forall|j: nat| j < 32 ==> #[trigger] crate::toystark::air::composition_defined::<ToyField>(
                viz_point(j),
                8,
                crate::toystark::air::last_trace_point::<ToyField>(8),
            ),
            forall|j: int| 0 <= j < k ==> #[trigger] vals(composition@)[j] == viz_composition(
                viz_point(j as nat),
                lde_evals@[j].val(),
                lde_evals@[(j + 4) % 32].val(),
                alpha.val(),
            ),
        decreases big_n - k,
    {
        let x = domain[k];
        proof {
            assert(vals(domain@)[k as int] == x.val());
            assert(crate::toystark::air::composition_defined::<ToyField>(viz_point(k as nat), 8, last.val()));
        }
        let v = viz_composition_at(x, lde_evals[k], lde_evals[(k + BLOWUP) % big_n], last, alpha);
        proof {
            crate::poly::lemma_vals_push(composition@, v);
        }
        composition.push(v);
        k = k + 1;
    }
    let ghost comp = vals(composition@);
    let fri_prover = FriProver::commit(&h, composition, offset, 2, 1, &mut transcript);
    transcript.check_log();
    let ghost s0 = transcript.sponge();
    proof {
        let roots = vals(fri_prover.proof_view().layer_roots@);
        let tail = crate::layers::absorb_events(vals(fri_prover.proof_view().final_poly_coeffs@));
        assert(transcript.log() == alpha_log + crate::layers::round_events(roots, fri_prover.betas()) + tail);
        assert(crate::layers::fold_rounds(32, 2) == 4) by {
            crate::fft::lemma_log2_of(5);
            crate::fft::lemma_log2_of(1);
        }
        crate::transcript::lemma_log_valid_prefix(hv, alpha_log + crate::layers::round_events(roots, fri_prover.betas()), tail, 97);
        crate::layers::lemma_round_events_replayed(hv, alpha_log, roots, fri_prover.betas(), 97);
    }
    let bound = fri_prover.index_bound();
    let num_queries: usize = 6;
    let mut indices: Vec<usize> = Vec::with_capacity(num_queries);
    let mut q: usize = 0;
    while q < num_queries
        invariant
            q <= num_queries,
            num_queries == 6,
            bound == 16,
            indices@.len() == q,
            forall|j: int| 0 <= j < q ==> #[trigger] indices@[j] < 16,
            transcript.hasher_view() == hv,
            transcript.sponge() == crate::cpu_verifier::sponge_after_squeezes(hv, s0, q as nat, 97),
            forall|j: int| 0 <= j < q ==> #[trigger] indices@[j] == (crate::transcript::squeeze_spec(
                hv,
                crate::cpu_verifier::sponge_after_squeezes(hv, s0, j as nat, 97),
                97,
            ).1 % 16) as usize,
        decreases num_queries - q,
    {
        indices.push(transcript.squeeze_index(bound));
        q = q + 1;
    }
    let fri_openings = fri_prover.open(indices.as_slice());
    proof {
        assert(vstd::arithmetic::power2::pow2(5) == 32) by {
            vstd::arithmetic::power2::lemma2_to64();
        }
        crate::merkle::lemma_layers_count(trace_tree@.layers, hv, 97, 5);
    }
    let mut queries: Vec<QueryJson> = Vec::with_capacity(num_queries);
    let mut q: usize = 0;
    while q < num_queries
        invariant
            q <= num_queries,
            num_queries == 6,
            indices@.len() == 6,
            forall|j: int| 0 <= j < 6 ==> #[trigger] indices@[j] < 16,
            lde_evals@.len() == 32,
            trace_tree@.hasher == hv,
            crate::merkle::layers_wf(trace_tree@.layers, hv, 97),
            trace_tree@.layers[0].len() == 32,
            forall|i: int| 0 <= i < 32 ==> #[trigger] trace_tree@.layers[0][i] == crate::poseidon::hash_many_spec(
                hv,
                seq![lde_evals@[i].val()],
                97,
            ),
            trace_root.val() == trace_tree@.layers.last()[0],
            trace_tree@.layers.len() == 6,
            queries@.len() == q,
            forall|j: int| 0 <= j < q ==> {
                let qj = #[trigger] queries@[j];
                &&& qj.trace_path.siblings@.len() == 5
                &&& qj.index < 16
                &&& qj.trace_path.leaf_index == qj.index
                &&& path_root(hv, leaf_hash_spec(hv, qj.trace_value as int, 97), qj.index as nat, u64_ints(qj.trace_path.siblings@), 97)
                    == trace_root.val()
            },
        decreases num_queries - q,
    {
        let idx = indices[q];
        let path: MerklePath<ToyField> = trace_tree.open(idx);
        let value = lde_evals[idx];
        let siblings = to_u64s(path.siblings.as_slice());
        proof {
            crate::merkle::lemma_open_verifies(trace_tree@, idx as nat, vals(path.siblings@), 97);
            assert(u64_ints(siblings@) == vals(path.siblings@));
        }
        queries.push(QueryJson {
            index: idx,
            trace_value: value.to_canonical_u64(),
            trace_path: MerklePathJson { leaf_index: path.leaf_index, siblings },
        });
        q = q + 1;
    }
    proof {
        assert(indices@ =~= viz_indices(hv, trace_root.val(), fri_prover.proof_view(), 16));
    }
    let accepted = verify_viz_proof(&h, trace_root, fri_prover.commit_proof(), &indices, &fri_openings, bound);
    proof {
        assert(fri_accepts::<ToyField>(
            hv,
            fri_prover.proof_view(),
            fri_prover.betas(),
            2,
            32,
            2,
            1,
            indices@,
            fri_openings@,
        )) by {
            crate::toyfield::lemma_toy_inverses_correct();
            crate::fft::lemma_log2_of(5);
            crate::fft::lemma_log2_of(3);
            crate::fft::lemma_log2_of(1);
            let t = vals(coeffs@);
            assert forall|i: int| #[trigger] coeff(t, i) == coeff(poly@, i) by {
                if 0 <= i < 8 {
                    if i >= poly@.len() {
                        assert(coeffs@[i].val() == 0);
                    } else {
                        poly.lemma_view();
                        assert(coeffs@[i] == poly.coeff_seq()[i]);
                    }
                }
            }
            assert forall|j: int| 0 <= j < 8 implies #[trigger] dft_at(t, stage_root::<ToyField>(3), j, 97) == 3 + 2 * j by {
                crate::poly_laws::lemma_poly_eval_same_coeffs(t, poly@, crate::field::pow_mod(stage_root::<ToyField>(3), j as nat, 97), 97);
                assert(vals(trace@)[j] == trace@[j].val());
                assert(dft_at(poly@, stage_root::<ToyField>(log2_of(trace@.len())), j, 97) == trace@[j].val());
            }
            let lde = vals(lde_evals@);
            assert forall|j: int| 0 <= j < 32 implies #[trigger] lde[j] == poly_eval(t, viz_point(j as nat), 97) by {
                assert(lde[j] == lde_evals@[j].val());
            }
            assert forall|j: int| 0 <= j < 32 implies #[trigger] fri_prover.layers()[0][j] == viz_composition(
                viz_point(j as nat),
                lde[j],
                lde[(j + 4) % 32],
                alpha.val(),
            ) by {
                assert(lde[j] == lde_evals@[j].val());
                assert(lde[(j + 4) % 32] == lde_evals@[(j + 4) % 32].val());
            }
            lemma_viz_fri_complete(
                hv,
                fri_prover.layers(),
                fri_prover.tree_views(),
                fri_prover.betas(),
                fri_prover.proof_view(),
                indices@,
                fri_openings@,
                t,
                lde,
                alpha.val(),
            );
        }
    }
    let commit = fri_prover.commit_proof();
    let r = ProofExport {
        statement: String::from_str("a_0=3, a_i+1=a_i+2, trace_len=8"),
        start: start.to_canonical_u64(),
        step: step.to_canonical_u64(),
        end: end.to_canonical_u64(),
        trace_root: trace_root.to_canonical_u64(),
        num_queries,
        queries,
        fri_layer_roots: to_u64s(commit.layer_roots.as_slice()),
        fri_final_poly_coeffs: to_u64s(commit.final_poly_coeffs.as_slice()),
        accepted,
    };
    proof {
        reveal_strlit("a_0=3, a_i+1=a_i+2, trace_len=8");
        vstd::arithmetic::div_mod::lemma_small_mod(7, 97);
        vstd::arithmetic::div_mod::lemma_small_mod(14, 97);
        vstd::arithmetic::div_mod::lemma_small_mod(17, 97);
    }
    r
}

} // verus!
