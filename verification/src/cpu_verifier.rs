//! The verifier for CPU execution proofs: recomputes the program hash,
//! replays the transcript, checks every query's trace rows against the
//! trace commitment and the composition against FRI's first round, then
//! runs the FRI query checks.

use vstd::prelude::*;
use vstd::arithmetic::power2::pow2;
use vstd::string::StringSliceAdditionalSpecFns;
use crate::field::{Field, vals, pow_mod, fa, fs, fm};
use crate::fft::{is_pow2_len, log2_of, no_zero_divisors, log2_exact, lemma_log2_of, lemma_pow2_mul};
use crate::fold::{domain_point, domain_point_spec};
use crate::layers::{fri_generator, lemma_coset_point_is_domain_point, replay_commit_phase, verify_queries, fri_accepts, FriRoundOpening, lemma_round_events_replayed, absorb_events, round_events};
use crate::lde::{coset_point, subgroup_generator};
use crate::air_for_isa::{Row, RowView, NUM_COLUMNS, columns_view, lemma_columns_view, row_columns};
use crate::constraints::{Check, transition_checks, first_row_boundary_checks, last_row_boundary_checks, transition_check_list, first_row_check_list, last_row_check_list, check_views};
use crate::opcodes::{Instruction, NUM_REGISTERS};
use crate::merkle::{MerklePath, path_root};
use crate::poseidon::{Poseidon, PoseidonView, hash_many_spec};
use crate::program_encoding::{program_hash, program_words};
use crate::statement::{Proof, TraceRowOpening, QueryOpening, ProverParams, blowup_ok, COMPOSITION_DEGREE_BOUND_FACTOR};
use crate::transcript::{Transcript, TranscriptEvent, SpongeView, squeeze_spec, log_state, log_valid, fnv1a_spec, replayed_log, replayed_challenges, ChallengeSource};

verus! {

/// The number of transition constraints.
pub open spec fn num_transition_checks() -> nat {
    41
}

/// The number of first-row constraints.
pub open spec fn num_first_checks() -> nat {
    7
}

/// The number of last-row constraints, with one per claimed register.
pub open spec fn num_last_checks() -> nat {
    7
}

/// The values of a list of named constraints.
pub open spec fn check_values(l: Seq<(Seq<char>, int)>) -> Seq<int> {
    l.map_values(|c: (Seq<char>, int)| c.1)
}

/// `register - claimed` for each register.
pub open spec fn claim_values(cur: RowView, claimed: Seq<int>, p: int) -> Seq<int> {
    Seq::new(NUM_REGISTERS as nat, |r: int| fs(cur.registers[r], claimed[r], p))
}

/// Field subtraction of canonical values is zero exactly when they are equal.
proof fn lemma_sub_zero_iff_equal(a: int, b: int, p: int)
    requires
        p > 1,
        0 <= a < p,
        0 <= b < p,
    ensures
        fs(a, b, p) == 0 <==> a == b,
{
    if a >= b {
        vstd::arithmetic::div_mod::lemma_small_mod((a - b) as nat, p as nat);
    } else {
        vstd::arithmetic::div_mod::lemma_small_mod((a - b + p) as nat, p as nat);
        vstd::arithmetic::div_mod::lemma_mod_add_multiples_vanish(a - b, p);
    }
}

/// The last-row constraint values (the halt check, then one value per
/// register against its claimed final value) all vanish exactly when the
/// row is halted and every register holds its claimed value.
pub proof fn lemma_last_row_values_bind_claims(cur: RowView, claimed: Seq<int>, p: int)
    requires
        p > 1,
        0 <= cur.sel[7] < p,
        forall|r: int| 0 <= r < NUM_REGISTERS ==> 0 <= #[trigger] cur.registers[r] < p,
        forall|r: int| 0 <= r < NUM_REGISTERS ==> 0 <= #[trigger] claimed[r] < p,
    ensures
        ({
            let lv = check_values(last_row_check_list(cur, p)) + claim_values(cur, claimed, p);
            &&& lv.len() == 1 + NUM_REGISTERS
            &&& (forall|k: int| 0 <= k < lv.len() ==> #[trigger] lv[k] == 0) <==> (cur.sel[7] == 1
                && forall|r: int| 0 <= r < NUM_REGISTERS ==> #[trigger] cur.registers[r] == claimed[r])
        }),
{
    let lv = check_values(last_row_check_list(cur, p)) + claim_values(cur, claimed, p);
    lemma_sub_zero_iff_equal(cur.sel[7], 1, p);
    assert(lv[0] == fs(cur.sel[7], 1, p));
    assert forall|r: int| 0 <= r < NUM_REGISTERS implies lv[r + 1] == 0 <==> #[trigger] cur.registers[r] == claimed[r] by {
        assert(lv[r + 1] == fs(cur.registers[r], claimed[r], p));
        lemma_sub_zero_iff_equal(cur.registers[r], claimed[r], p);
    }
    if forall|k: int| 0 <= k < lv.len() ==> #[trigger] lv[k] == 0 {
        assert(lv[0] == 0);
        assert forall|r: int| 0 <= r < NUM_REGISTERS implies #[trigger] cur.registers[r] == claimed[r] by {
            assert(lv[r + 1] == 0);
        }
    }
    if cur.sel[7] == 1 && forall|r: int| 0 <= r < NUM_REGISTERS ==> #[trigger] cur.registers[r] == claimed[r] {
        assert forall|k: int| 0 <= k < lv.len() implies #[trigger] lv[k] == 0 by {
            if k > 0 {
                assert(cur.registers[k - 1] == claimed[k - 1]);
                assert(lv[(k - 1) + 1] == 0);
            }
        }
    }
}

/// `sum_i powers[start + i] * values[i]` over the first `n` values,
/// accumulated left to right in the field.
pub open spec fn weighted_sum(values: Seq<int>, powers: Seq<int>, start: int, n: nat, p: int) -> int
    decreases n,
{
    if n == 0 {
        0
    } else {
        fa(weighted_sum(values, powers, start, (n - 1) as nat, p), fm(powers[start + n - 1], values[n - 1], p), p)
    }
}

/// The composition value at `x` of the row `cur` and the row after it:
/// each group of constraints combined with powers of the challenge and
/// divided by its zerofier; `None` where a zerofier vanishes.
#[verifier::opaque]
pub open spec fn composition_at<F: Field>(
    cur: RowView,
    next: RowView,
    x: int,
    n: nat,
    last: int,
    claimed: Seq<int>,
    powers: Seq<int>,
    num_transition: int,
    num_first: int,
) -> Option<int> {
    let p = F::p();
    let tv = check_values(transition_check_list(cur, next, p));
    let fv = check_values(first_row_check_list(cur));
    let lv = check_values(last_row_check_list(cur, p)) + claim_values(cur, claimed, p);
    let transition_zerofier = fm(fs(pow_mod(x, n, p), 1, p), F::inv_val(fs(x, last, p)), p);
    let first_zerofier = fs(x, 1, p);
    let last_zerofier = fs(x, last, p);
    let acc_transition = weighted_sum(tv, powers, 0, tv.len(), p);
    let acc_first = weighted_sum(fv, powers, num_transition, fv.len(), p);
    let acc_last = weighted_sum(lv, powers, num_transition + num_first, lv.len(), p);
    if last_zerofier == 0 || transition_zerofier == 0 || first_zerofier == 0 {
        None
    } else {
        Some(
            fa(
                fa(
                    fm(acc_transition, F::inv_val(transition_zerofier), p),
                    fm(acc_first, F::inv_val(first_zerofier), p),
                    p,
                ),
                fm(acc_last, F::inv_val(last_zerofier), p),
                p,
            ),
        )
    }
}

pub(crate) proof fn lemma_check_counts(cur: RowView, next: RowView, p: int)
    requires
        cur.sel.len() == 8,
        cur.registers.len() == 6,
        cur.is_write_r.len() == 6,
        cur.is_read_a_r.len() == 6,
        cur.is_read_b_r.len() == 6,
    ensures
        transition_check_list(cur, next, p).len() == num_transition_checks(),
        first_row_check_list(cur).len() == num_first_checks(),
        last_row_check_list(cur, p).len() + NUM_REGISTERS == num_last_checks(),
{
}

/// Adds `powers[start + i] * checks[i].value` over the checks to `acc`.
fn accumulate<F: Field>(checks: &Vec<Check<F>>, powers: &[F], start: usize) -> (r: F)
    requires
        start + checks@.len() <= powers@.len(),
    ensures
        r.val() == weighted_sum(check_values(check_views(checks@)), vals(powers@), start as int, checks@.len(), F::p()),
{
    let ghost cv = check_values(check_views(checks@));
    let np = powers.len();
    let mut acc = F::zero();
    let mut i: usize = 0;
    while i < checks.len()
        invariant
            i <= checks@.len(),
            start + checks@.len() <= np,
            np == powers@.len(),
            cv == check_values(check_views(checks@)),
            acc.val() == weighted_sum(cv, vals(powers@), start as int, i as nat, F::p()),
        decreases checks@.len() - i,
    {
        let term = powers[start + i].fmul(checks[i].value);
        proof {
            assert(cv[i as int] == checks@[i as int].value.val());
            assert(vals(powers@)[start + i] == powers@[start + i].val());
        }
        acc = acc.fadd(term);
        i = i + 1;
    }
    acc
}

/// The composition value at `x` from an opened row and the row after it,
/// or `None` where a zerofier vanishes at `x`.
pub(crate) fn composition_value_at<F: Field>(
    row_values: &[F],
    next_row_values: &[F],
    x: F,
    trace_len: usize,
    last_trace_point: F,
    claimed_final_registers: &[F; NUM_REGISTERS],
    alpha_powers: &[F],
    num_transition: usize,
    num_first: usize,
) -> (r: Option<F>)
    requires
        row_values@.len() == NUM_COLUMNS,
        next_row_values@.len() == NUM_COLUMNS,
        num_transition >= num_transition_checks(),
        num_first >= num_first_checks(),
        num_transition + num_first + num_last_checks() <= alpha_powers@.len(),
    ensures
        r matches Some(v) ==> composition_at::<F>(
            columns_view(vals(row_values@)),
            columns_view(vals(next_row_values@)),
            x.val(),
            trace_len as nat,
            last_trace_point.val(),
            vals(claimed_final_registers@),
            vals(alpha_powers@),
            num_transition as int,
            num_first as int,
        ) == Some(v.val()),
        r is None ==> composition_at::<F>(
            columns_view(vals(row_values@)),
            columns_view(vals(next_row_values@)),
            x.val(),
            trace_len as nat,
            last_trace_point.val(),
            vals(claimed_final_registers@),
            vals(alpha_powers@),
            num_transition as int,
            num_first as int,
        ) is None,
{
    let np = alpha_powers.len();
    proof {
        reveal(composition_at);
    }
    let cur_row = Row::from_columns(row_values);
    let next_row = Row::from_columns(next_row_values);
    proof {
        lemma_columns_view(cur_row);
        lemma_columns_view(next_row);
        lemma_check_counts(cur_row@, next_row@, F::p());
    }
    let transition_vals = transition_checks(&cur_row, &next_row);
    let first_vals = first_row_boundary_checks(&cur_row);
    let mut last_vals = last_row_boundary_checks(&cur_row);
    let mut r: usize = 0;
    let ghost base = check_views(last_vals@);
    while r < NUM_REGISTERS
        invariant
            r <= NUM_REGISTERS,
            base.len() == 1,
            check_values(check_views(last_vals@)) == check_values(base) + claim_values(
                cur_row@,
                vals(claimed_final_registers@),
                F::p(),
            ).subrange(0, r as int),
        decreases NUM_REGISTERS - r,
    {
        let c = Check { name: "claimed_final_register", value: cur_row.registers[r].fsub(claimed_final_registers[r]) };
        let ghost before = last_vals@;
        last_vals.push(c);
        proof {
            assert(check_values(check_views(last_vals@)) =~= check_values(check_views(before)).push(c.value.val()));
            assert(claim_values(cur_row@, vals(claimed_final_registers@), F::p()).subrange(0, r + 1)
                =~= claim_values(cur_row@, vals(claimed_final_registers@), F::p()).subrange(0, r as int).push(c.value.val()));
            assert(check_values(base) + claim_values(cur_row@, vals(claimed_final_registers@), F::p()).subrange(0, r + 1)
                =~= (check_values(base) + claim_values(cur_row@, vals(claimed_final_registers@), F::p()).subrange(0, r as int)).push(c.value.val()));
        }
        r = r + 1;
    }
    proof {
        assert(claim_values(cur_row@, vals(claimed_final_registers@), F::p()).subrange(0, 6)
            =~= claim_values(cur_row@, vals(claimed_final_registers@), F::p()));
    }
    let one = F::one();
    let vanishing_h = x.pow(trace_len as u64).fsub(one);
    let inv_x_minus_last = match x.fsub(last_trace_point).inverse() {
        Some(v) => v,
        None => {
            return None;
        },
    };
    let transition_zerofier = vanishing_h.fmul(inv_x_minus_last);
    let first_zerofier = x.fsub(one);
    let last_zerofier = x.fsub(last_trace_point);
    let acc_transition = accumulate(&transition_vals, alpha_powers, 0);
    let acc_first = accumulate(&first_vals, alpha_powers, num_transition);
    let acc_last = accumulate(&last_vals, alpha_powers, num_transition + num_first);
    let t_inv = match transition_zerofier.inverse() {
        Some(v) => v,
        None => {
            return None;
        },
    };
    let f_inv = match first_zerofier.inverse() {
        Some(v) => v,
        None => {
            return None;
        },
    };
    let l_inv = match last_zerofier.inverse() {
        Some(v) => v,
        None => {
            return None;
        },
    };
    Some(acc_transition.fmul(t_inv).fadd(acc_first.fmul(f_inv)).fadd(acc_last.fmul(l_inv)))
}


/// The Merkle check of one opened trace row.
pub open spec fn trace_opening_ok<F: Field>(h: PoseidonView, root: int, o: TraceRowOpening<F>, idx: nat) -> bool {
    &&& o.path.leaf_index == idx
    &&& path_root(h, hash_many_spec(h, vals(o.values@), F::p()), idx, vals(o.path.siblings@), F::p()) == root
}

/// The domain separator of the CPU proof system.
pub open spec fn cpu_label() -> Seq<u8> {
    "zkvm-cpu-air-v1".spec_bytes()
}

/// What the transcript absorbs before the first challenge: the label,
/// the trace length, the blowup factor, the coset offset, the program
/// hash, the claimed registers and the trace root.
pub open spec fn prelude_events(
    p: int,
    trace_len: nat,
    blowup: nat,
    program_hash: int,
    claimed: Seq<int>,
    root: int,
) -> Seq<TranscriptEvent> {
    seq![
        TranscriptEvent::Absorbed(fnv1a_spec(cpu_label()) as int % p),
        TranscriptEvent::Absorbed(trace_len as int % p),
        TranscriptEvent::Absorbed(blowup as int % p),
        TranscriptEvent::Absorbed(3int % p),
        TranscriptEvent::Absorbed(program_hash),
    ] + claimed.map_values(|v: int| TranscriptEvent::Absorbed(v)) + seq![TranscriptEvent::Absorbed(root)]
}

/// What the verifier's transcript absorbs before the first challenge.
pub open spec fn prelude_log<F: Field>(proof: Proof<F>) -> Seq<TranscriptEvent> {
    prelude_events(
        F::p(),
        proof.trace_len as nat,
        proof.params.blowup_factor as nat,
        proof.program_hash.val(),
        vals(proof.claim.claimed_final_registers@),
        proof.trace_root.val(),
    )
}

/// The constraint-combining challenge.
pub open spec fn cpu_alpha<F: Field>(h: PoseidonView, proof: Proof<F>) -> int {
    squeeze_spec(h, log_state(h, prelude_log(proof), F::p()), F::p()).1
}

/// The powers of the challenge, one per constraint.
pub open spec fn cpu_alpha_powers<F: Field>(h: PoseidonView, proof: Proof<F>) -> Seq<int> {
    Seq::new(
        num_transition_checks() + num_first_checks() + num_last_checks(),
        |i: int| pow_mod(cpu_alpha(h, proof), i as nat, F::p()),
    )
}

/// The log once the challenge is drawn.
pub open spec fn alpha_log<F: Field>(h: PoseidonView, proof: Proof<F>) -> Seq<TranscriptEvent> {
    prelude_log(proof).push(TranscriptEvent::Squeezed(cpu_alpha(h, proof)))
}

/// The folding challenges the verifier replays.
pub open spec fn cpu_betas<F: Field>(h: PoseidonView, proof: Proof<F>) -> Seq<int> {
    replayed_challenges(h, alpha_log(h, proof), vals(proof.fri_commit.layer_roots@), F::p())
}

/// The sponge once the FRI commitment is replayed.
pub open spec fn cpu_query_sponge<F: Field>(h: PoseidonView, proof: Proof<F>) -> SpongeView {
    log_state(
        h,
        replayed_log(h, alpha_log(h, proof), vals(proof.fri_commit.layer_roots@), F::p()) + absorb_events(
            vals(proof.fri_commit.final_poly_coeffs@),
        ),
        F::p(),
    )
}

/// The sponge after `k` squeezes.
pub open spec fn sponge_after_squeezes(h: PoseidonView, s: SpongeView, k: nat, p: int) -> SpongeView
    decreases k,
{
    if k == 0 {
        s
    } else {
        squeeze_spec(h, sponge_after_squeezes(h, s, (k - 1) as nat, p), p).0
    }
}

/// The query indices the verifier derives.
pub open spec fn cpu_indices<F: Field>(h: PoseidonView, proof: Proof<F>) -> Seq<usize> {
    let half = proof.trace_len * proof.params.blowup_factor / 2;
    let s = cpu_query_sponge(h, proof);
    Seq::new(
        proof.params.num_queries as nat,
        |q: int| (squeeze_spec(h, sponge_after_squeezes(h, s, q as nat, F::p()), F::p()).1 % half) as usize,
    )
}

/// The `k`-th point of the LDE domain.
pub open spec fn cpu_lde_point<F: Field>(big_n: nat, k: nat) -> int {
    coset_point(3int % F::p(), subgroup_generator::<F>(log2_of(big_n)), k, F::p())
}

/// The checks of one query before FRI.
pub open spec fn cpu_query_ok<F: Field>(h: PoseidonView, proof: Proof<F>, idx: nat, q: QueryOpening<F>) -> bool {
    let n = proof.trace_len as nat;
    let b = proof.params.blowup_factor as nat;
    let big_n = n * b;
    let half = big_n / 2;
    let idx1 = idx + half;
    let root = proof.trace_root.val();
    let claimed = vals(proof.claim.claimed_final_registers@);
    let powers = cpu_alpha_powers(h, proof);
    let last = crate::toystark::air::last_trace_point::<F>(n);
    &&& trace_opening_ok(h, root, q.trace_here, idx)
    &&& trace_opening_ok(h, root, q.trace_here_next, (idx + b) % big_n)
    &&& trace_opening_ok(h, root, q.trace_paired, idx1)
    &&& trace_opening_ok(h, root, q.trace_paired_next, (idx1 + b) % big_n)
    &&& q.fri@.len() >= 1
    &&& composition_at::<F>(
        columns_view(vals(q.trace_here.values@)),
        columns_view(vals(q.trace_here_next.values@)),
        cpu_lde_point::<F>(big_n, idx),
        n,
        last,
        claimed,
        powers,
        num_transition_checks() as int,
        num_first_checks() as int,
    ) == Some(q.fri@[0].value_a.val())
    &&& composition_at::<F>(
        columns_view(vals(q.trace_paired.values@)),
        columns_view(vals(q.trace_paired_next.values@)),
        cpu_lde_point::<F>(big_n, idx1),
        n,
        last,
        claimed,
        powers,
        num_transition_checks() as int,
        num_first_checks() as int,
    ) == Some(q.fri@[0].value_b.val())
}

/// The FRI openings of each query.
pub open spec fn cpu_fri_openings<F: Field>(qs: Seq<QueryOpening<F>>) -> Seq<Vec<FriRoundOpening<F>>> {
    qs.map_values(|q: QueryOpening<F>| q.fri)
}

/// The verifier's verdict on a proof for `program`.
pub open spec fn cpu_accepts<F: Field>(h: PoseidonView, program: Seq<Instruction<F>>, proof: Proof<F>) -> bool {
    let n = proof.trace_len as nat;
    let b = proof.params.blowup_factor as nat;
    let k = proof.params.fri_final_poly_num_coeffs as nat;
    let big_n = n * b;
    let indices = cpu_indices(h, proof);
    if !is_pow2_len(n) {
        false
    } else if hash_many_spec(h, program_words(program), F::p()) != proof.program_hash.val() {
        false
    } else if big_n / 2 == 0 || proof.params.num_queries != proof.queries@.len() {
        false
    } else {
        &&& forall|q: int| 0 <= q < proof.queries@.len() ==> #[trigger] cpu_query_ok(
            h,
            proof,
            indices[q] as nat,
            proof.queries@[q],
        )
        &&& fri_accepts::<F>(
            h,
            proof.fri_commit,
            cpu_betas(h, proof),
            3int % F::p(),
            big_n,
            k * (b / COMPOSITION_DEGREE_BOUND_FACTOR as nat),
            k,
            indices,
            cpu_fri_openings(proof.queries@),
        )
    }
}

/// An accepted proof is bound to the program and to the trace commitment:
/// the program's encoding hashes to the proof's program hash, and for each
/// query the four opened rows (at the query index, one trace step later,
/// half the domain further, and one step after that) hash, along their
/// Merkle paths at those indices, to the committed trace root.
pub proof fn lemma_accepted_rows_authenticated<F: Field>(h: PoseidonView, program: Seq<Instruction<F>>, proof: Proof<F>)
    requires
        cpu_accepts(h, program, proof),
    ensures
        hash_many_spec(h, program_words(program), F::p()) == proof.program_hash.val(),
        forall|q: int|
            0 <= q < proof.queries@.len() ==> {
                let b = proof.params.blowup_factor as nat;
                let big_n = proof.trace_len as nat * b;
                let i0 = cpu_indices(h, proof)[q] as nat;
                let i1 = i0 + big_n / 2;
                let o = #[trigger] proof.queries@[q];
                let root = proof.trace_root.val();
                &&& o.trace_here.path.leaf_index == i0
                &&& path_root(h, hash_many_spec(h, vals(o.trace_here.values@), F::p()), i0,
                    vals(o.trace_here.path.siblings@), F::p()) == root
                &&& o.trace_here_next.path.leaf_index == (i0 + b) % big_n
                &&& path_root(h, hash_many_spec(h, vals(o.trace_here_next.values@), F::p()), (i0 + b) % big_n,
                    vals(o.trace_here_next.path.siblings@), F::p()) == root
                &&& o.trace_paired.path.leaf_index == i1
                &&& path_root(h, hash_many_spec(h, vals(o.trace_paired.values@), F::p()), i1,
                    vals(o.trace_paired.path.siblings@), F::p()) == root
                &&& o.trace_paired_next.path.leaf_index == (i1 + b) % big_n
                &&& path_root(h, hash_many_spec(h, vals(o.trace_paired_next.values@), F::p()), (i1 + b) % big_n,
                    vals(o.trace_paired_next.path.siblings@), F::p()) == root
            },
{
    assert forall|q: int| 0 <= q < proof.queries@.len() implies {
        let b = proof.params.blowup_factor as nat;
        let big_n = proof.trace_len as nat * b;
        let i0 = cpu_indices(h, proof)[q] as nat;
        let i1 = i0 + big_n / 2;
        let o = #[trigger] proof.queries@[q];
        let root = proof.trace_root.val();
        &&& o.trace_here.path.leaf_index == i0
        &&& path_root(h, hash_many_spec(h, vals(o.trace_here.values@), F::p()), i0,
            vals(o.trace_here.path.siblings@), F::p()) == root
        &&& o.trace_here_next.path.leaf_index == (i0 + b) % big_n
        &&& path_root(h, hash_many_spec(h, vals(o.trace_here_next.values@), F::p()), (i0 + b) % big_n,
            vals(o.trace_here_next.path.siblings@), F::p()) == root
        &&& o.trace_paired.path.leaf_index == i1
        &&& path_root(h, hash_many_spec(h, vals(o.trace_paired.values@), F::p()), i1,
            vals(o.trace_paired.path.siblings@), F::p()) == root
        &&& o.trace_paired_next.path.leaf_index == (i1 + b) % big_n
        &&& path_root(h, hash_many_spec(h, vals(o.trace_paired_next.values@), F::p()), (i1 + b) % big_n,
            vals(o.trace_paired_next.path.siblings@), F::p()) == root
    } by {
        assert(cpu_query_ok(h, proof, cpu_indices(h, proof)[q] as nat, proof.queries@[q]));
    }
}

/// Every opened row has one value per column.
pub open spec fn rows_well_shaped<F: Field>(qs: Seq<QueryOpening<F>>) -> bool {
    forall|q: int| 0 <= q < qs.len() ==> {
        &&& (#[trigger] qs[q]).trace_here.values@.len() == NUM_COLUMNS
        &&& qs[q].trace_here_next.values@.len() == NUM_COLUMNS
        &&& qs[q].trace_paired.values@.len() == NUM_COLUMNS
        &&& qs[q].trace_paired_next.values@.len() == NUM_COLUMNS
    }
}

/// The checks the verifier makes before it looks at the parameters: a
/// power-of-two trace length, the hash of `program`, a nonempty half of the
/// evaluation domain to draw queries from, and one opening per query.
pub open spec fn cpu_statement_matches<F: Field>(h: PoseidonView, program: Seq<Instruction<F>>, proof: Proof<F>) -> bool {
    let n = proof.trace_len as nat;
    let big_n = n * proof.params.blowup_factor as nat;
    &&& is_pow2_len(n)
    &&& hash_many_spec(h, program_words(program), F::p()) == proof.program_hash.val()
    &&& big_n / 2 != 0
    &&& proof.params.num_queries == proof.queries@.len()
}

/// What the verifier needs of a proof so that every check it makes is
/// defined: the program and the domain fit the machine, and a proof that
/// passes the first checks has well-formed parameters and rows of the
/// right width.
pub open spec fn cpu_proof_well_formed<F: Field>(h: PoseidonView, program: Seq<Instruction<F>>, proof: Proof<F>) -> bool {
    let n = proof.trace_len as nat;
    let b = proof.params.blowup_factor as nat;
    let k = proof.params.fri_final_poly_num_coeffs as nat;
    let big_n = n * b;
    &&& program.len() * 6 <= usize::MAX
    &&& is_pow2_len(n) ==> 2 * big_n <= usize::MAX
    &&& cpu_statement_matches(h, program, proof) ==> {
        &&& is_pow2_len(b)
        &&& blowup_ok(proof.params.blowup_factor)
        &&& k * (b / COMPOSITION_DEGREE_BOUND_FACTOR as nat) >= 1
        &&& k * (b / COMPOSITION_DEGREE_BOUND_FACTOR as nat) <= usize::MAX
        &&& big_n <= pow2(F::two_adicity_spec())
        &&& rows_well_shaped(proof.queries@)
    }
}

/// Checks one opened row against the trace commitment.
fn verify_trace_opening<F: Field>(
    hasher: &Poseidon<F>,
    opening: &TraceRowOpening<F>,
    trace_root: F,
    expected_index: usize,
) -> (r: bool)
    requires
        opening.values@.len() == NUM_COLUMNS,
    ensures
        r == trace_opening_ok(hasher@, trace_root.val(), *opening, expected_index as nat),
{
    crate::statement::assert_row_shape(opening.values.as_slice());
    if opening.path.leaf_index != expected_index {
        return false;
    }
    let leaf_hash = hasher.hash_many(opening.values.as_slice());
    opening.path.verify(hasher, trace_root, leaf_hash)
}

/// The powers `1, alpha, alpha^2, ...` of the challenge.
pub(crate) fn powers_of<F: Field>(alpha: F, count: usize) -> (r: Vec<F>)
    ensures
        r@.len() == count,
        forall|i: int| 0 <= i < count ==> #[trigger] vals(r@)[i] == pow_mod(alpha.val(), i as nat, F::p()),
{
    proof {
        F::lemma_modulus();
    }
    let mut powers: Vec<F> = Vec::with_capacity(count);
    let mut acc = F::one();
    let mut i: usize = 0;
    proof {
        vstd::arithmetic::power::lemma_pow0(alpha.val());
        vstd::arithmetic::div_mod::lemma_small_mod(1, F::p() as nat);
    }
    while i < count
        invariant
            i <= count,
            F::p() > 64,
            powers@.len() == i,
            acc.val() == pow_mod(alpha.val(), i as nat, F::p()),
            forall|j: int| 0 <= j < i ==> #[trigger] vals(powers@)[j] == pow_mod(alpha.val(), j as nat, F::p()),
        decreases count - i,
    {
        proof {
            crate::poly::lemma_vals_push(powers@, acc);
        }
        powers.push(acc);
        let ghost a0 = acc.val();
        acc = acc.fmul(alpha);
        proof {
            let p = F::p();
            let pw = vstd::arithmetic::power::pow(alpha.val(), i as nat);
            vstd::arithmetic::div_mod::lemma_mul_mod_noop_left(pw, alpha.val(), p);
            vstd::arithmetic::power::lemma_pow_adds(alpha.val(), i as nat, 1);
            vstd::arithmetic::power::lemma_pow1(alpha.val());
        }
        i = i + 1;
    }
    powers
}


/// A transcript that has absorbed the statement and the trace root.
pub(crate) fn start_transcript<'h, F: Field>(
    hasher: &'h Poseidon<F>,
    trace_len: usize,
    blowup: usize,
    program_hash: F,
    claimed: &[F; NUM_REGISTERS],
    trace_root: F,
) -> (t: Transcript<'h, F>)
    ensures
        t.hasher_view() == hasher@,
        t.log() == prelude_events(
            F::p(),
            trace_len as nat,
            blowup as nat,
            program_hash.val(),
            vals(claimed@),
            trace_root.val(),
        ),
{
    let mut transcript = Transcript::new(hasher, "zkvm-cpu-air-v1");
    transcript.absorb_u64(trace_len as u64);
    transcript.absorb_u64(blowup as u64);
    transcript.absorb(F::from_u64(3));
    transcript.absorb(program_hash);
    let ghost head = transcript.log();
    let mut r: usize = 0;
    while r < NUM_REGISTERS
        invariant
            r <= NUM_REGISTERS,
            transcript.hasher_view() == hasher@,
            transcript.log() == head + vals(claimed@).subrange(0, r as int).map_values(|v: int| TranscriptEvent::Absorbed(v)),
        decreases NUM_REGISTERS - r,
    {
        transcript.absorb(claimed[r]);
        proof {
            assert(vals(claimed@).subrange(0, r + 1).map_values(|v: int| TranscriptEvent::Absorbed(v))
                =~= vals(claimed@).subrange(0, r as int).map_values(|v: int| TranscriptEvent::Absorbed(v)).push(
                TranscriptEvent::Absorbed(claimed[r as int].val()),
            ));
        }
        r = r + 1;
    }
    transcript.absorb(trace_root);
    proof {
        assert(vals(claimed@).subrange(0, 6) =~= vals(claimed@));
        assert(transcript.log() =~= prelude_events(
            F::p(),
            trace_len as nat,
            blowup as nat,
            program_hash.val(),
            vals(claimed@),
            trace_root.val(),
        ));
    }
    transcript
}


/// Verifies a proof that `program` ran to the claimed final registers.
pub fn verify<F: Field>(hasher: &Poseidon<F>, program: &[Instruction<F>], proof: &Proof<F>) -> (r: bool)
    requires
        cpu_proof_well_formed(hasher@, program@, *proof),
    ensures
        r == cpu_accepts(hasher@, program@, *proof),
{
    let trace_len = proof.trace_len;
    if log2_exact(trace_len).is_none() {
        return false;
    }
    let blowup = proof.params.blowup_factor;
    let k = proof.params.fri_final_poly_num_coeffs;
    let ghost h = hasher@;
    let ghost p = F::p();
    proof {
        F::lemma_modulus();
        let kn = choose|kk: nat| pow2(kk) == trace_len;
        vstd::arithmetic::power2::lemma_pow2_pos(kn);
        vstd::arithmetic::div_mod::lemma_small_mod(3, F::p() as nat);
    }
    let big_n = trace_len * blowup;
    let half = big_n / 2;
    let offset = F::from_u64(3);
    let expected_program_hash = program_hash(hasher, program);
    if !expected_program_hash.feq(&proof.program_hash) {
        return false;
    }
    let mut transcript = start_transcript(
        hasher,
        trace_len,
        blowup,
        proof.program_hash,
        &proof.claim.claimed_final_registers,
        proof.trace_root,
    );
    transcript.check_log();
    let alpha = transcript.squeeze_field();
    let probe_values = vec![F::zero(); NUM_COLUMNS];
    let probe = Row::from_columns(probe_values.as_slice());
    proof {
        lemma_check_counts(probe@, probe@, F::p());
    }
    let num_transition = transition_checks(&probe, &probe).len();
    let num_first = first_row_boundary_checks(&probe).len();
    let num_last = last_row_boundary_checks(&probe).len() + NUM_REGISTERS;
    let total_checks = num_transition + num_first + num_last;
    let alpha_powers = powers_of(alpha, total_checks);
    proof {
        assert(vals(alpha_powers@) =~= cpu_alpha_powers(h, *proof));
        assert(transcript.log() == alpha_log(h, *proof));
    }
    let ghost before_replay = transcript.log();
    let betas = replay_commit_phase(&proof.fri_commit, &mut transcript);
    transcript.check_log();
    proof {
        let roots = vals(proof.fri_commit.layer_roots@);
        let tail = absorb_events(vals(proof.fri_commit.final_poly_coeffs@));
        crate::transcript::lemma_log_valid_prefix(h, before_replay + round_events(roots, vals(betas@)), tail, p);
        lemma_round_events_replayed(h, before_replay, roots, vals(betas@), p);
        assert(vals(betas@) == cpu_betas(h, *proof));
        assert(transcript.sponge() == cpu_query_sponge(h, *proof));
    }
    let bound = half;
    if bound == 0 || proof.params.num_queries != proof.queries.len() {
        return false;
    }
    proof {
        lemma_pow2_mul(trace_len as nat, blowup as nat);
        let kb = choose|kb: nat| pow2(kb) == blowup;
        vstd::arithmetic::power2::lemma_pow2_pos(kb);
        assert(trace_len * blowup >= blowup) by (nonlinear_arith)
            requires trace_len >= 1;
        assert(trace_len * blowup >= trace_len) by (nonlinear_arith)
            requires blowup >= 1;
    }
    let nq = proof.params.num_queries;
    let ghost sq = transcript.sponge();
    let mut indices: Vec<usize> = Vec::with_capacity(nq);
    let mut q: usize = 0;
    while q < nq
        invariant
            q <= nq,
            bound >= 1,
            transcript.hasher_view() == h,
            indices@.len() == q,
            transcript.sponge() == sponge_after_squeezes(h, sq, q as nat, p),
            p == F::p(),
            forall|j: int| 0 <= j < q ==> #[trigger] indices@[j] == (squeeze_spec(h, sponge_after_squeezes(h, sq, j as nat, p), p).1
                % (bound as int)) as usize,
        decreases nq - q,
    {
        let idx = transcript.squeeze_index(bound);
        indices.push(idx);
        q = q + 1;
    }
    proof {
        assert(indices@ =~= cpu_indices(h, *proof));
    }
    let log_n = match log2_exact(trace_len) {
        Some(l) => l,
        None => {
            return false;
        },
    };
    let last_trace_point = crate::toystark::air::last_point_of::<F>(trace_len);
    let log_big_n = match log2_exact(big_n) {
        Some(l) => l,
        None => {
            assert(false);
            0
        },
    };
    proof {
        lemma_log2_of(log_big_n as nat);
        if log_big_n > F::two_adicity_spec() {
            vstd::arithmetic::power2::lemma_pow2_strictly_increases(F::two_adicity_spec(), log_big_n as nat);
        }
    }
    let big_generator = F::root_of_unity(log_big_n);
    let ghost pr = *proof;
    let mut q: usize = 0;
    while q < nq
        invariant
            q <= nq,
            pr == *proof,
            h == hasher@,
            nq == proof.queries@.len(),
            nq == indices@.len(),
            indices@ == cpu_indices(h, pr),
            trace_len == proof.trace_len,
            blowup == proof.params.blowup_factor,
            big_n == trace_len * blowup,
            blowup <= big_n,
            half == big_n / 2,
            half >= 1,
            big_n <= pow2(F::two_adicity_spec()),
            2 * big_n <= usize::MAX,
            pow2(log_big_n as nat) == big_n,
            big_generator.val() == fri_generator::<F>(big_n as nat),
            offset.val() == 3int % F::p(),
            last_trace_point.val() == crate::toystark::air::last_trace_point::<F>(trace_len as nat),
            vals(alpha_powers@) == cpu_alpha_powers(h, pr),
            alpha_powers@.len() == 55,
            num_transition == num_transition_checks(),
            num_first == num_first_checks(),
            rows_well_shaped(proof.queries@),
            forall|j: int| 0 <= j < nq ==> #[trigger] indices@[j] < half,
            forall|j: int| 0 <= j < q ==> #[trigger] cpu_query_ok(h, pr, indices@[j] as nat, proof.queries@[j]),
        decreases nq - q,
    {
        let idx0 = indices[q];
        let idx1 = idx0 + half;
        let next0 = (idx0 + blowup) % big_n;
        let next1 = (idx1 + blowup) % big_n;
        let query = &proof.queries[q];
        assert(rows_well_shaped(proof.queries@));
        assert(query.trace_here.values@.len() == NUM_COLUMNS);
        if !verify_trace_opening(hasher, &query.trace_here, proof.trace_root, idx0)
            || !verify_trace_opening(hasher, &query.trace_here_next, proof.trace_root, next0)
            || !verify_trace_opening(hasher, &query.trace_paired, proof.trace_root, idx1)
            || !verify_trace_opening(hasher, &query.trace_paired_next, proof.trace_root, next1) {
            proof {
                assert(!cpu_query_ok(h, pr, indices@[q as int] as nat, proof.queries@[q as int]));
            }
            return false;
        }
        if query.fri.len() == 0 {
            proof {
                assert(!cpu_query_ok(h, pr, indices@[q as int] as nat, proof.queries@[q as int]));
            }
            return false;
        }
        let round0 = &query.fri[0];
        let x_here = domain_point(offset, big_generator, idx0, 0);
        let x_paired = domain_point(offset, big_generator, idx1, 0);
        proof {
            lemma_coset_point_is_domain_point::<F>(offset.val(), fri_generator::<F>(big_n as nat), idx0 as nat);
            lemma_coset_point_is_domain_point::<F>(offset.val(), fri_generator::<F>(big_n as nat), idx1 as nat);
        }
        let composition_here = match composition_value_at(
            query.trace_here.values.as_slice(),
            query.trace_here_next.values.as_slice(),
            x_here,
            trace_len,
            last_trace_point,
            &proof.claim.claimed_final_registers,
            alpha_powers.as_slice(),
            num_transition,
            num_first,
        ) {
            Some(v) => v,
            None => {
                proof {
                    assert(!cpu_query_ok(h, pr, indices@[q as int] as nat, proof.queries@[q as int]));
                }
                return false;
            },
        };
        let composition_paired = match composition_value_at(
            query.trace_paired.values.as_slice(),
            query.trace_paired_next.values.as_slice(),
            x_paired,
            trace_len,
            last_trace_point,
            &proof.claim.claimed_final_registers,
            alpha_powers.as_slice(),
            num_transition,
            num_first,
        ) {
            Some(v) => v,
            None => {
                proof {
                    assert(!cpu_query_ok(h, pr, indices@[q as int] as nat, proof.queries@[q as int]));
                }
                return false;
            },
        };
        if !composition_here.feq(&round0.value_a) || !composition_paired.feq(&round0.value_b) {
            proof {
                assert(!cpu_query_ok(h, pr, indices@[q as int] as nat, proof.queries@[q as int]));
            }
            return false;
        }
        q = q + 1;
    }
    let mut fri_openings: Vec<Vec<FriRoundOpening<F>>> = Vec::with_capacity(nq);
    let mut q: usize = 0;
    while q < nq
        invariant
            q <= nq,
            nq == proof.queries@.len(),
            fri_openings@.len() == q,
            forall|j: int| 0 <= j < q ==> #[trigger] crate::layers::same_rounds(fri_openings@[j]@, proof.queries@[j].fri@),
        decreases nq - q,
    {
        fri_openings.push(crate::layers::copy_rounds(&proof.queries[q].fri));
        q = q + 1;
    }
    let final_size = proof.params.fri_final_layer_size();
    let ok = verify_queries(
        hasher,
        &proof.fri_commit,
        betas.as_slice(),
        offset,
        big_n,
        final_size,
        k,
        indices.as_slice(),
        fri_openings.as_slice(),
    );
    proof {
        let fq = cpu_fri_openings(proof.queries@);
        assert forall|j: int| 0 <= j < fri_openings@.len() implies #[trigger] crate::layers::same_rounds(fri_openings@[j]@, fq[j]@) by {
            assert(fq[j] == proof.queries@[j].fri);
        }
        crate::layers::lemma_fri_accepts_same::<F>(
            h,
            proof.fri_commit,
            vals(betas@),
            offset.val(),
            big_n as nat,
            final_size as nat,
            k as nat,
            indices@,
            fri_openings@,
            fq,
        );
    }
    ok
}


/// Off the trace domain every zerofier is nonzero, so the composition is defined.
pub proof fn lemma_composition_defined<F: Field>(
    cur: RowView,
    next: RowView,
    x: int,
    n: nat,
    last: int,
    claimed: Seq<int>,
    powers: Seq<int>,
    num_transition: int,
    num_first: int,
)
    requires
        crate::toystark::air::composition_defined::<F>(x, n, last),
    ensures
        composition_at::<F>(cur, next, x, n, last, claimed, powers, num_transition, num_first) is Some,
{
    reveal(composition_at);
}

} // verus!
