//! The prover for CPU execution: runs the program, commits to the
//! low-degree extension of the AIR trace, folds the composition of all
//! constraints with FRI, and opens the queried rows.

use vstd::prelude::*;
use vstd::arithmetic::power2::pow2;
use crate::field::{Field, vals};
use crate::fft::{is_pow2_len, log2_of, no_zero_divisors, lemma_pow2_mul};
use crate::layers::{FriProver, FriCommitPhaseProof, fold_rounds, honest_opening, round_events, absorb_events, lemma_round_events_replayed};
use crate::lde::{coset_domain, low_degree_extend};
use crate::interpolate::fft_interpolate;
use crate::poly::{copy_vec, pad_to};
use crate::air_for_isa::{Row, RowView, NUM_COLUMNS, build_rows, row_columns, view_columns, lemma_view_columns, columns_view};
use crate::layers::halvings;
use crate::air_laws::honest_row;
use crate::toystark::prover::{trace_lde_value, trace_lde_values, lemma_lde_is_trace_lde};
use crate::field::inverses_correct;
use crate::constraints::{transition_checks, first_row_boundary_checks, last_row_boundary_checks};
use crate::opcodes::{Instruction, NUM_REGISTERS, MEMORY_SIZE};
use crate::trace::{run_padded, program_valid, run_stays_in_bounds, initial_state, state_at, access_at};
use crate::merkle::{MerkleTree, lemma_open_verifies};
use crate::poseidon::Poseidon;
use crate::program_encoding::{program_hash, program_words};
use crate::statement::{Proof, ProverParams, PublicClaim, QueryOpening, TraceRowOpening, blowup_ok, COMPOSITION_DEGREE_BOUND_FACTOR, assert_row_shape};
use crate::cpu_verifier::{
    composition_value_at, powers_of, start_transcript, lemma_check_counts, cpu_query_ok, cpu_indices, cpu_lde_point,
    rows_well_shaped, prelude_log, alpha_log, cpu_alpha_powers, cpu_query_sponge, sponge_after_squeezes,
    trace_opening_ok, composition_at, num_transition_checks, num_first_checks, cpu_accepts,
};
use crate::toystark::air::{composition_defined, last_trace_point, last_point_of};
use crate::transcript::{ChallengeSource, squeeze_spec, TranscriptEvent, SpongeView, log_state, log_valid};
use crate::poseidon::PoseidonView;

verus! {

/// What the prover can be asked for: a program that runs within its
/// bounds and halts by `trace_len`, parameters FRI accepts, and an LDE
/// coset on which every zerofier of the composition is nonzero.
#[verifier::opaque]
pub open spec fn cpu_prover_params_ok<F: Field>(
    program: Seq<Instruction<F>>,
    initial_memory: Seq<F>,
    trace_len: usize,
    params: ProverParams,
) -> bool {
    let n = trace_len as nat;
    let b = params.blowup_factor as nat;
    let k = params.fri_final_poly_num_coeffs as nat;
    let big_n = n * b;
    let final_size = k * (b / COMPOSITION_DEGREE_BOUND_FACTOR as nat);
    &&& program_valid(program)
    &&& initial_memory.len() <= MEMORY_SIZE
    &&& run_stays_in_bounds(program, initial_state(vals(initial_memory)), n, true)
    &&& program.len() * 6 <= usize::MAX
    &&& is_pow2_len(n)
    &&& is_pow2_len(b)
    &&& blowup_ok(params.blowup_factor)
    &&& is_pow2_len(k)
    &&& final_size <= big_n
    &&& big_n <= pow2(F::two_adicity_spec())
    &&& 2 * big_n <= usize::MAX
    &&& forall|j: nat| j < big_n ==> #[trigger] composition_defined::<F>(
        cpu_lde_point::<F>(big_n, j),
        n,
        last_trace_point::<F>(n),
    )
}

/// The column `c` of every row.
fn column_of<F: Field>(row_cols: &Vec<Vec<F>>, c: usize) -> (r: Vec<F>)
    requires
        c < NUM_COLUMNS,
        forall|i: int| 0 <= i < row_cols@.len() ==> (#[trigger] row_cols@[i])@.len() == NUM_COLUMNS,
    ensures
        r@.len() == row_cols@.len(),
        forall|i: int| 0 <= i < row_cols@.len() ==> #[trigger] r@[i] == row_cols@[i]@[c as int],
{
    let mut col: Vec<F> = Vec::with_capacity(row_cols.len());
    let mut i: usize = 0;
    while i < row_cols.len()
        invariant
            i <= row_cols@.len(),
            c < NUM_COLUMNS,
            forall|j: int| 0 <= j < row_cols@.len() ==> (#[trigger] row_cols@[j])@.len() == NUM_COLUMNS,
            col@.len() == i,
            forall|j: int| 0 <= j < i ==> #[trigger] col@[j] == row_cols@[j]@[c as int],
        decreases row_cols@.len() - i,
    {
        col.push(row_cols[i][c]);
        i = i + 1;
    }
    col
}

/// The entry `k` of every column: one row of the extended trace.
fn row_at<F: Field>(columns: &Vec<Vec<F>>, k: usize) -> (r: Vec<F>)
    requires
        forall|c: int| 0 <= c < columns@.len() ==> k < (#[trigger] columns@[c])@.len(),
    ensures
        r@.len() == columns@.len(),
        forall|c: int| 0 <= c < columns@.len() ==> #[trigger] r@[c] == columns@[c]@[k as int],
{
    let mut row: Vec<F> = Vec::with_capacity(columns.len());
    let mut c: usize = 0;
    while c < columns.len()
        invariant
            c <= columns@.len(),
            forall|j: int| 0 <= j < columns@.len() ==> k < (#[trigger] columns@[j])@.len(),
            row@.len() == c,
            forall|j: int| 0 <= j < c ==> #[trigger] row@[j] == columns@[j]@[k as int],
        decreases columns@.len() - c,
    {
        row.push(columns[c][k]);
        c = c + 1;
    }
    row
}

/// A copy of the commit-phase message.
fn copy_fri_commit<F: Field>(c: &FriCommitPhaseProof<F>) -> (r: FriCommitPhaseProof<F>)
    ensures
        r.layer_roots@ == c.layer_roots@,
        r.final_poly_coeffs@ == c.final_poly_coeffs@,
{
    FriCommitPhaseProof {
        layer_roots: copy_vec(c.layer_roots.as_slice()),
        final_poly_coeffs: copy_vec(c.final_poly_coeffs.as_slice()),
    }
}

/// Opens row `j` of the extended trace.
fn trace_open<F: Field>(tree: &MerkleTree<F>, lde_rows: &Vec<Vec<F>>, j: usize, hasher: &Poseidon<F>) -> (r: TraceRowOpening<F>)
    requires
        j < lde_rows@.len(),
        lde_rows@[j as int]@.len() == NUM_COLUMNS,
        tree@.hasher == hasher@,
        crate::merkle::layers_wf(tree@.layers, hasher@, F::p()),
        tree@.layers[0].len() == lde_rows@.len(),
        forall|i: int| 0 <= i < lde_rows@.len() ==> #[trigger] tree@.layers[0][i] == crate::poseidon::hash_many_spec(
            hasher@,
            vals(lde_rows@[i]@),
            F::p(),
        ),
    ensures
        r.values@ == lde_rows@[j as int]@,
        trace_opening_ok(hasher@, tree@.layers.last()[0], r, j as nat),
{
    let values = copy_vec(lde_rows[j].as_slice());
    assert_row_shape(values.as_slice());
    let path = tree.open(j);
    proof {
        lemma_open_verifies(tree@, j as nat, vals(path.siblings@), F::p());
    }
    TraceRowOpening { values, path }
}



/// Column `c` of rows given as plain values.
pub open spec fn view_column(rows: Seq<RowView>, c: int) -> Seq<int> {
    Seq::new(rows.len(), |i: int| view_columns(rows[i])[c])
}

/// The AIR rows of the padded run of `program` from `memory`, one per cycle.
pub open spec fn cpu_run_rows<F: Field>(program: Seq<Instruction<F>>, memory: Seq<int>, n: nat) -> Seq<RowView> {
    let init = initial_state(memory);
    Seq::new(
        n,
        |i: int|
            honest_row::<F>(
                state_at(program, init, i as nat),
                program[state_at(program, init, i as nat).pc],
                access_at(program, init, i as nat),
            ),
    )
}

/// Row `j` of the low-degree extension of `rows`: the extension of every
/// column at LDE point `j` of the `big_n`-point coset `3 H`.
pub open spec fn cpu_trace_lde_row<F: Field>(rows: Seq<RowView>, big_n: nat, j: nat) -> Seq<int> {
    Seq::new(NUM_COLUMNS as nat, |c: int| trace_lde_value::<F>(view_column(rows, c), big_n, j))
}

/// The rows of the low-degree extension of every AIR column on the coset
/// `offset * H` of the `n * blowup`-point subgroup.
fn trace_lde_rows<F: Field>(rows: &Vec<Row<F>>, n: usize, blowup: usize, offset: F) -> (r: Vec<Vec<F>>)
    requires
        rows@.len() == n,
        is_pow2_len(n as nat),
        is_pow2_len(blowup as nat),
        n >= 1,
        n <= n * blowup,
        n * blowup <= pow2(F::two_adicity_spec()),
        2 * (n * blowup) <= usize::MAX,
        offset.val() != 0,
        offset.val() == 3int % F::p(),
    ensures
        r@.len() == n * blowup,
        forall|j: int| 0 <= j < r@.len() ==> (#[trigger] r@[j])@.len() == NUM_COLUMNS,
        forall|j: int| 0 <= j < r@.len() ==> #[trigger] vals(r@[j]@) == cpu_trace_lde_row::<F>(
            Seq::new(n as nat, |i: int| rows@[i]@),
            (n * blowup) as nat,
            j as nat,
        ),
{
    proof {
        F::lemma_prime_field();
    }
    let ghost rv = Seq::new(n as nat, |i: int| rows@[i]@);
    let big_n = n * blowup;
    let mut row_cols: Vec<Vec<F>> = Vec::with_capacity(n);
    let mut i: usize = 0;
    while i < n
        invariant
            i <= n,
            rows@.len() == n,
            row_cols@.len() == i,
            forall|j: int| 0 <= j < i ==> (#[trigger] row_cols@[j])@.len() == NUM_COLUMNS,
            forall|j: int| 0 <= j < i ==> #[trigger] row_cols@[j]@ == row_columns(rows@[j]),
        decreases n - i,
    {
        row_cols.push(rows[i].to_columns());
        i = i + 1;
    }
    let mut lde_evals: Vec<Vec<F>> = Vec::with_capacity(NUM_COLUMNS);
    let mut c: usize = 0;
    while c < NUM_COLUMNS
        invariant
            c <= NUM_COLUMNS,
            n >= 1,
            row_cols@.len() == n,
            forall|j: int| 0 <= j < n ==> (#[trigger] row_cols@[j])@.len() == NUM_COLUMNS,
            is_pow2_len(n as nat),
            is_pow2_len(blowup as nat),
            n <= big_n,
            big_n == n * blowup,
            big_n <= pow2(F::two_adicity_spec()),
            2 * big_n <= usize::MAX,
            no_zero_divisors::<F>(),
            offset.val() != 0,
            lde_evals@.len() == c,
            forall|j: int| 0 <= j < c ==> (#[trigger] lde_evals@[j])@.len() == big_n,
            offset.val() == 3int % F::p(),
            rows@.len() == n,
            rv == Seq::new(n as nat, |i: int| rows@[i]@),
            forall|j: int| 0 <= j < n ==> #[trigger] row_cols@[j]@ == row_columns(rows@[j]),
            inverses_correct::<F>() ==> forall|j: int| 0 <= j < c ==> #[trigger] vals(lde_evals@[j]@)
                == trace_lde_values::<F>(view_column(rv, j), big_n as nat),
        decreases NUM_COLUMNS - c,
    {
        let col = column_of(&row_cols, c);
        let poly = fft_interpolate(col.as_slice());
        let coeffs = pad_to(poly.coeffs(), n);
        let evals = low_degree_extend(coeffs.as_slice(), blowup, offset);
        proof {
            F::lemma_modulus();
            assert(vals(col@) =~= view_column(rv, c as int)) by {
                assert forall|i: int| 0 <= i < n implies #[trigger] vals(col@)[i] == view_column(rv, c as int)[i] by {
                    lemma_view_columns(rows@[i]);
                    assert(col@[i] == row_cols@[i]@[c as int]);
                    assert(vals(row_columns(rows@[i]))[c as int] == row_columns(rows@[i])[c as int].val());
                }
            }
            if inverses_correct::<F>() {
                lemma_lde_is_trace_lde::<F>(
                    vals(col@),
                    poly@,
                    vals(coeffs@),
                    vals(evals@),
                    n as nat,
                    blowup as nat,
                );
            }
        }
        lde_evals.push(evals);
        c = c + 1;
    }
    let mut lde_rows: Vec<Vec<F>> = Vec::with_capacity(big_n);
    let mut kk: usize = 0;
    while kk < big_n
        invariant
            kk <= big_n,
            lde_evals@.len() == NUM_COLUMNS,
            forall|j: int| 0 <= j < NUM_COLUMNS ==> (#[trigger] lde_evals@[j])@.len() == big_n,
            lde_rows@.len() == kk,
            forall|j: int| 0 <= j < kk ==> (#[trigger] lde_rows@[j])@.len() == NUM_COLUMNS,
            inverses_correct::<F>() ==> forall|j: int| 0 <= j < NUM_COLUMNS ==> #[trigger] vals(lde_evals@[j]@)
                == trace_lde_values::<F>(view_column(rv, j), big_n as nat),
            inverses_correct::<F>() ==> forall|j: int| 0 <= j < kk ==> #[trigger] vals(lde_rows@[j]@)
                == cpu_trace_lde_row::<F>(rv, big_n as nat, j as nat),
        decreases big_n - kk,
    {
        let row = row_at(&lde_evals, kk);
        proof {
            if inverses_correct::<F>() {
                assert(vals(row@) =~= cpu_trace_lde_row::<F>(rv, big_n as nat, kk as nat)) by {
                    assert forall|c2: int| 0 <= c2 < NUM_COLUMNS implies #[trigger] vals(row@)[c2]
                        == cpu_trace_lde_row::<F>(rv, big_n as nat, kk as nat)[c2] by {
                        assert(row@[c2] == lde_evals@[c2]@[kk as int]);
                        assert(vals(lde_evals@[c2]@)[kk as int] == lde_evals@[c2]@[kk as int].val());
                        assert(vals(lde_evals@[c2]@) == trace_lde_values::<F>(view_column(rv, c2), big_n as nat));
                    }
                }
            }
        }
        lde_rows.push(row);
        kk = kk + 1;
    }
    lde_rows
}


/// The composition at every point of the LDE coset, from the extended row
/// there and the row one trace step later.
fn composition_on_coset<F: Field>(
    lde_rows: &Vec<Vec<F>>,
    lde_domain: &Vec<F>,
    n: usize,
    blowup: usize,
    last: F,
    claimed: &[F; NUM_REGISTERS],
    alpha_powers: &Vec<F>,
    num_transition: usize,
    num_first: usize,
) -> (r: Vec<F>)
    requires
        lde_rows@.len() == n * blowup,
        lde_domain@.len() == n * blowup,
        blowup <= n * blowup,
        2 * (n * blowup) <= usize::MAX,
        forall|j: int| 0 <= j < n * blowup ==> (#[trigger] lde_rows@[j])@.len() == NUM_COLUMNS,
        forall|j: int| 0 <= j < n * blowup ==> #[trigger] vals(lde_domain@)[j] == cpu_lde_point::<F>((n * blowup) as nat, j as nat),
        forall|j: nat| j < n * blowup ==> #[trigger] composition_defined::<F>(
            cpu_lde_point::<F>((n * blowup) as nat, j),
            n as nat,
            last_trace_point::<F>(n as nat),
        ),
        last.val() == last_trace_point::<F>(n as nat),
        num_transition == num_transition_checks(),
        num_first == num_first_checks(),
        alpha_powers@.len() == 55,
    ensures
        r@.len() == n * blowup,
        forall|j: int| 0 <= j < n * blowup ==> #[trigger] composition_at::<F>(
            crate::air_for_isa::columns_view(vals(lde_rows@[j]@)),
            crate::air_for_isa::columns_view(vals(lde_rows@[(j + blowup) % (n * blowup)]@)),
            cpu_lde_point::<F>((n * blowup) as nat, j as nat),
            n as nat,
            last_trace_point::<F>(n as nat),
            vals(claimed@),
            vals(alpha_powers@),
            num_transition_checks() as int,
            num_first_checks() as int,
        ) == Some(vals(r@)[j]),
{
    let big_n = n * blowup;
    let mut composition_evals: Vec<F> = Vec::with_capacity(big_n);
    let mut kk: usize = 0;
    while kk < big_n
        invariant
            kk <= big_n,
            big_n == n * blowup,
            blowup <= big_n,
            2 * big_n <= usize::MAX,
            lde_rows@.len() == big_n,
            lde_domain@.len() == big_n,
            forall|j: int| 0 <= j < big_n ==> (#[trigger] lde_rows@[j])@.len() == NUM_COLUMNS,
            forall|j: int| 0 <= j < big_n ==> #[trigger] vals(lde_domain@)[j] == cpu_lde_point::<F>(big_n as nat, j as nat),
            forall|j: nat| j < big_n ==> #[trigger] composition_defined::<F>(
                cpu_lde_point::<F>(big_n as nat, j),
                n as nat,
                last_trace_point::<F>(n as nat),
            ),
            last.val() == last_trace_point::<F>(n as nat),
            num_transition == num_transition_checks(),
            num_first == num_first_checks(),
            alpha_powers@.len() == 55,
            composition_evals@.len() == kk,
            forall|j: int| 0 <= j < kk ==> #[trigger] composition_at::<F>(
                crate::air_for_isa::columns_view(vals(lde_rows@[j]@)),
                crate::air_for_isa::columns_view(vals(lde_rows@[(j + blowup) % (big_n as int)]@)),
                cpu_lde_point::<F>(big_n as nat, j as nat),
                n as nat,
                last_trace_point::<F>(n as nat),
                vals(claimed@),
                vals(alpha_powers@),
                num_transition_checks() as int,
                num_first_checks() as int,
            ) == Some(vals(composition_evals@)[j]),
        decreases big_n - kk,
    {
        let next = (kk + blowup) % big_n;
        proof {
            assert(vals(lde_domain@)[kk as int] == lde_domain@[kk as int].val());
            assert(composition_defined::<F>(cpu_lde_point::<F>(big_n as nat, kk as nat), n as nat, last_trace_point::<F>(n as nat)));
            crate::cpu_verifier::lemma_composition_defined::<F>(
                crate::air_for_isa::columns_view(vals(lde_rows@[kk as int]@)),
                crate::air_for_isa::columns_view(vals(lde_rows@[next as int]@)),
                cpu_lde_point::<F>(big_n as nat, kk as nat),
                n as nat,
                last_trace_point::<F>(n as nat),
                vals(claimed@),
                vals(alpha_powers@),
                num_transition as int,
                num_first as int,
            );
        }
        let v = composition_value_at(
            lde_rows[kk].as_slice(),
            lde_rows[next].as_slice(),
            lde_domain[kk],
            n,
            last,
            claimed,
            alpha_powers.as_slice(),
            num_transition,
            num_first,
        ).expect("the zerofiers are nonzero on the LDE coset");
        proof {
            crate::poly::lemma_vals_push(composition_evals@, v);
        }
        composition_evals.push(v);
        kk = kk + 1;
    }
    composition_evals
}


/// The openings of every query: the four rows at the index, one trace step
/// later, at the paired index and one step after that, and the FRI rounds.
fn open_queries<F: Field>(
    hasher: &Poseidon<F>,
    trace_tree: &MerkleTree<F>,
    lde_rows: &Vec<Vec<F>>,
    indices: &Vec<usize>,
    fri_openings: Vec<Vec<crate::layers::FriRoundOpening<F>>>,
    blowup: usize,
) -> (r: Vec<QueryOpening<F>>)
    requires
        fri_openings@.len() == indices@.len(),
        2 * lde_rows@.len() <= usize::MAX,
        blowup <= lde_rows@.len(),
        forall|j: int| 0 <= j < lde_rows@.len() ==> (#[trigger] lde_rows@[j])@.len() == NUM_COLUMNS,
        trace_tree@.hasher == hasher@,
        crate::merkle::layers_wf(trace_tree@.layers, hasher@, F::p()),
        trace_tree@.layers[0].len() == lde_rows@.len(),
        forall|i: int| 0 <= i < lde_rows@.len() ==> #[trigger] trace_tree@.layers[0][i] == crate::poseidon::hash_many_spec(
            hasher@,
            vals(lde_rows@[i]@),
            F::p(),
        ),
        forall|j: int| 0 <= j < indices@.len() ==> #[trigger] indices@[j] < lde_rows@.len() / 2,
    ensures
        r@.len() == indices@.len(),
        forall|j: int| 0 <= j < indices@.len() ==> {
            let idx = #[trigger] indices@[j];
            let big_n = lde_rows@.len() as int;
            let half = big_n / 2;
            let root_val = trace_tree@.layers.last()[0];
            let o = r@[j];
            &&& trace_opening_ok(hasher@, root_val, o.trace_here, idx as nat)
            &&& trace_opening_ok(hasher@, root_val, o.trace_here_next, ((idx + blowup) % big_n) as nat)
            &&& trace_opening_ok(hasher@, root_val, o.trace_paired, (idx + half) as nat)
            &&& trace_opening_ok(hasher@, root_val, o.trace_paired_next, ((idx + half + blowup) % big_n) as nat)
            &&& o.trace_here.values@ == lde_rows@[idx as int]@
            &&& o.trace_here_next.values@ == lde_rows@[(idx + blowup) % big_n]@
            &&& o.trace_paired.values@ == lde_rows@[idx + half]@
            &&& o.trace_paired_next.values@ == lde_rows@[(idx + half + blowup) % big_n]@
            &&& o.fri == fri_openings@[j]
        },
        rows_well_shaped(r@),
{
    let ghost all_openings = fri_openings@;
    let mut fri_openings = fri_openings;
    let big_n = lde_rows.len();
    let half = big_n / 2;
    let nq = indices.len();
    let ghost root_val = trace_tree@.layers.last()[0];
    let mut queries: Vec<QueryOpening<F>> = Vec::with_capacity(nq);
    let mut q: usize = 0;
    while q < nq
        invariant
            q <= nq,
            nq == indices@.len(),
            all_openings.len() == nq,
            fri_openings@ == all_openings.subrange(q as int, nq as int),
            queries@.len() == q,
            half == big_n / 2,
            big_n == lde_rows@.len(),
            2 * big_n <= usize::MAX,
            blowup <= big_n,
            forall|j: int| 0 <= j < big_n ==> (#[trigger] lde_rows@[j])@.len() == NUM_COLUMNS,
            trace_tree@.hasher == hasher@,
            crate::merkle::layers_wf(trace_tree@.layers, hasher@, F::p()),
            trace_tree@.layers[0].len() == lde_rows@.len(),
            forall|i: int| 0 <= i < lde_rows@.len() ==> #[trigger] trace_tree@.layers[0][i] == crate::poseidon::hash_many_spec(
                hasher@,
                vals(lde_rows@[i]@),
                F::p(),
            ),
            root_val == trace_tree@.layers.last()[0],
            forall|j: int| 0 <= j < nq ==> #[trigger] indices@[j] < half,
            forall|j: int| 0 <= j < q ==> {
                let idx = #[trigger] indices@[j];
                let o = queries@[j];
                &&& trace_opening_ok(hasher@, root_val, o.trace_here, idx as nat)
                &&& trace_opening_ok(hasher@, root_val, o.trace_here_next, ((idx + blowup) % (big_n as int)) as nat)
                &&& trace_opening_ok(hasher@, root_val, o.trace_paired, (idx + half) as nat)
                &&& trace_opening_ok(hasher@, root_val, o.trace_paired_next, ((idx + half + blowup) % (big_n as int)) as nat)
                &&& o.trace_here.values@ == lde_rows@[idx as int]@
                &&& o.trace_here_next.values@ == lde_rows@[(idx + blowup) % (big_n as int)]@
                &&& o.trace_paired.values@ == lde_rows@[idx + half]@
                &&& o.trace_paired_next.values@ == lde_rows@[(idx + half + blowup) % (big_n as int)]@
                &&& o.fri == all_openings[j]
            },
        decreases nq - q,
    {
        let idx0 = indices[q];
        let idx1 = idx0 + half;
        let trace_here = trace_open(trace_tree, lde_rows, idx0, hasher);
        let trace_here_next = trace_open(trace_tree, lde_rows, (idx0 + blowup) % big_n, hasher);
        let trace_paired = trace_open(trace_tree, lde_rows, idx1, hasher);
        let trace_paired_next = trace_open(trace_tree, lde_rows, (idx1 + blowup) % big_n, hasher);
        let fri = fri_openings.remove(0);
        proof {
            assert(fri_openings@ =~= all_openings.subrange(q + 1, nq as int));
        }
        queries.push(QueryOpening { trace_here, trace_here_next, trace_paired, trace_paired_next, fri });
        q = q + 1;
    }
    proof {
        assert forall|j: int| 0 <= j < queries@.len() implies {
            &&& (#[trigger] queries@[j]).trace_here.values@.len() == NUM_COLUMNS
            &&& queries@[j].trace_here_next.values@.len() == NUM_COLUMNS
            &&& queries@[j].trace_paired.values@.len() == NUM_COLUMNS
            &&& queries@[j].trace_paired_next.values@.len() == NUM_COLUMNS
        } by {
            let idx = indices@[j];
            assert(idx < half);
            assert(lde_rows@[idx as int]@.len() == NUM_COLUMNS);
            assert(lde_rows@[(idx + blowup) % (big_n as int)]@.len() == NUM_COLUMNS);
            assert(lde_rows@[idx + half]@.len() == NUM_COLUMNS);
            assert(lde_rows@[(idx + half + blowup) % (big_n as int)]@.len() == NUM_COLUMNS);
        }
    }
    queries
}


/// Draws `count` query indices below `bound`.
fn draw_indices<'h, F: Field>(transcript: &mut crate::transcript::Transcript<'h, F>, bound: usize, count: usize) -> (r: Vec<usize>)
    requires
        bound >= 1,
    ensures
        final(transcript).hasher_view() == old(transcript).hasher_view(),
        r@.len() == count,
        forall|j: int| 0 <= j < count ==> #[trigger] r@[j] == (squeeze_spec(
            old(transcript).hasher_view(),
            sponge_after_squeezes(old(transcript).hasher_view(), old(transcript).sponge(), j as nat, F::p()),
            F::p(),
        ).1 % (bound as int)) as usize,
        forall|j: int| 0 <= j < count ==> #[trigger] r@[j] < bound,
{
    let ghost h = transcript.hasher_view();
    let ghost s0 = transcript.sponge();
    let mut indices: Vec<usize> = Vec::with_capacity(count);
    let mut q: usize = 0;
    while q < count
        invariant
            q <= count,
            bound >= 1,
            transcript.hasher_view() == h,
            h == old(transcript).hasher_view(),
            s0 == old(transcript).sponge(),
            indices@.len() == q,
            transcript.sponge() == sponge_after_squeezes(h, s0, q as nat, F::p()),
            forall|j: int| 0 <= j < q ==> #[trigger] indices@[j] == (squeeze_spec(
                h,
                sponge_after_squeezes(h, s0, j as nat, F::p()),
                F::p(),
            ).1 % (bound as int)) as usize,
            forall|j: int| 0 <= j < q ==> #[trigger] indices@[j] < bound,
        decreases count - q,
    {
        let idx = transcript.squeeze_index(bound);
        indices.push(idx);
        q = q + 1;
    }
    indices
}

/// Runs the program and commits to the low-degree extension of its AIR
/// trace: the trace rows, the extended rows, the coset and the tree.
fn commit_trace<F: Field>(
    hasher: &Poseidon<F>,
    program: &[Instruction<F>],
    initial_memory: Vec<F>,
    n: usize,
    blowup: usize,
    offset: F,
) -> (r: (Vec<Row<F>>, Vec<Vec<F>>, Vec<F>, MerkleTree<F>))
    requires
        program_valid(program@),
        initial_memory@.len() <= MEMORY_SIZE,
        run_stays_in_bounds(program@, initial_state(vals(initial_memory@)), n as nat, true),
        is_pow2_len(n as nat),
        is_pow2_len(blowup as nat),
        is_pow2_len(n as nat * blowup as nat),
        n >= 1,
        n <= n * blowup,
        n * blowup <= pow2(F::two_adicity_spec()),
        2 * (n * blowup) <= usize::MAX,
        offset.val() == 3int % F::p(),
        offset.val() != 0,
    ensures
        ({
            let (rows, lde_rows, lde_domain, tree) = r;
            let big_n = n * blowup;
            &&& rows@.len() == n
            &&& lde_rows@.len() == big_n
            &&& forall|j: int| 0 <= j < big_n ==> (#[trigger] lde_rows@[j])@.len() == NUM_COLUMNS
            &&& lde_domain@.len() == big_n
            &&& forall|j: int| 0 <= j < big_n ==> #[trigger] vals(lde_domain@)[j] == cpu_lde_point::<F>(big_n as nat, j as nat)
            &&& tree@.hasher == hasher@
            &&& crate::merkle::layers_wf(tree@.layers, hasher@, F::p())
            &&& tree@.layers[0].len() == big_n
            &&& forall|i: int| 0 <= i < big_n ==> #[trigger] tree@.layers[0][i] == crate::poseidon::hash_many_spec(
                hasher@,
                vals(lde_rows@[i]@),
                F::p(),
            )
            &&& forall|i: int| 0 <= i < big_n ==> #[trigger] vals(lde_rows@[i]@)
                == cpu_trace_lde_row::<F>(
                cpu_run_rows::<F>(program@, vals(initial_memory@), n as nat),
                big_n as nat,
                i as nat,
            )
        }),
{
    proof {
        F::lemma_prime_field();
    }
    let ghost mem = vals(initial_memory@);
    let big_n = n * blowup;
    let trace = run_padded(program, initial_memory, n);
    proof {
        assert forall|i: int| 0 <= i < trace.rows@.len() implies crate::opcodes::instruction_valid(#[trigger] trace.rows@[i].instruction) by {
            let init = initial_state(vals(initial_memory@));
            let s = crate::trace::state_at(program@, init, i as nat);
            assert(crate::trace::cycle_runs(program@, init, i as nat, true));
            assert(s.pc < program@.len());
        }
    }
    let rows = build_rows(&trace);
    proof {
        let init = initial_state(mem);
        assert(Seq::new(n as nat, |i: int| rows@[i]@) =~= cpu_run_rows::<F>(program@, mem, n as nat)) by {
            assert forall|i: int| 0 <= i < n implies #[trigger] rows@[i]@ == cpu_run_rows::<F>(program@, mem, n as nat)[i] by {
                let row = trace.rows@[i];
                assert(row.memory_access@ == access_at(program@, init, i as nat));
            }
        }
    }
    let lde_rows = trace_lde_rows(&rows, n, blowup, offset);
    let lde_domain = coset_domain(big_n, offset);
    let trace_tree = MerkleTree::from_rows(hasher, lde_rows.as_slice());
    trace_tree.check_wf();
    (rows, lde_rows, lde_domain, trace_tree)
}

/// The composition, at every point of the LDE coset, of the low-degree
/// extension of the padded run's rows, with the claim and challenges of
/// proof `r`.
#[verifier::opaque]
pub open spec fn cpu_composition_values<F: Field>(
    h: PoseidonView,
    program: Seq<Instruction<F>>,
    memory: Seq<int>,
    r: Proof<F>,
) -> Seq<int> {
    let n = r.trace_len as nat;
    let b = r.params.blowup_factor as nat;
    let big_n = n * b;
    let rows = cpu_run_rows::<F>(program, memory, n);
    Seq::new(
        big_n,
        |j: int|
            match composition_at::<F>(
                columns_view(cpu_trace_lde_row::<F>(rows, big_n, j as nat)),
                columns_view(cpu_trace_lde_row::<F>(rows, big_n, ((j + b) % (big_n as int)) as nat)),
                cpu_lde_point::<F>(big_n, j as nat),
                n,
                last_trace_point::<F>(n),
                vals(r.claim.claimed_final_registers@),
                cpu_alpha_powers(h, r),
                num_transition_checks() as int,
                num_first_checks() as int,
            ) {
                Some(v) => v,
                None => 0,
            },
    )
}

/// The verifier accepts `r` whenever the final polynomial has one
/// coefficient and the composition of the padded run
/// is the evaluation of a polynomial with at most `8 * trace_len`
/// coefficients.
#[verifier::opaque]
pub open spec fn accepted_when_low_degree<F: Field>(
    h: PoseidonView,
    program: Seq<Instruction<F>>,
    mem: Seq<int>,
    r: Proof<F>,
) -> bool {
    r.params.fri_final_poly_num_coeffs == 1 && (exists|c: Seq<int>|
        c.len() <= 8 * r.trace_len && #[trigger] crate::fri_laws::layer_is_poly::<F>(
            cpu_composition_values::<F>(h, program, mem, r),
            c,
            3int % F::p(),
            (r.trace_len * r.params.blowup_factor) as nat,
            0,
        )) ==> cpu_accepts(h, program, r)
}

/// The FRI part of an honest proof is accepted when its composition is
/// the evaluation of a polynomial with at most `8 * trace_len`
/// coefficients and the final polynomial has one coefficient.
proof fn lemma_prover_fri_accepted<F: Field>(
    h: PoseidonView,
    r: Proof<F>,
    layers: Seq<Seq<int>>,
    trees: Seq<crate::merkle::MerkleTreeView>,
    betas: Seq<int>,
    before_commit: Seq<TranscriptEvent>,
    indices: Seq<usize>,
    openings: Seq<Vec<crate::layers::FriRoundOpening<F>>>,
    c: Seq<int>,
)
    requires
        r.params.fri_final_poly_num_coeffs == 1,
        ({
            let n = r.trace_len as nat;
            let b = r.params.blowup_factor as nat;
            let big_n = n * b;
            let fin = b / 8;
            let rounds = fold_rounds(big_n, fin);
            &&& is_pow2_len(n)
            &&& is_pow2_len(b)
            &&& blowup_ok(r.params.blowup_factor)
            &&& big_n <= pow2(F::two_adicity_spec())
            &&& 3int % F::p() == 3
            &&& F::p() > 64
            &&& crate::layers::prover_layers_ok::<F>(layers, trees, h, big_n)
            &&& layers.len() == rounds + 1
            &&& betas.len() == rounds
            &&& trees.len() == (if rounds == 0 { 1 } else { rounds })
            &&& crate::layers::layers_fold::<F>(layers, betas, 3, big_n)
            &&& r.fri_commit.layer_roots@.len() == trees.len()
            &&& forall|t: int| 0 <= t < trees.len() ==> #[trigger] vals(r.fri_commit.layer_roots@)[t]
                == trees[t].layers.last()[0]
            &&& crate::poly::is_normalized(vals(r.fri_commit.final_poly_coeffs@))
            &&& r.fri_commit.final_poly_coeffs@.len() <= 1
            &&& crate::poly::poly_eval(
                vals(r.fri_commit.final_poly_coeffs@),
                crate::fold::domain_point_spec::<F>(3, crate::layers::fri_generator::<F>(big_n), 0, rounds),
                F::p(),
            ) == layers[rounds as int][0]
            &&& before_commit == alpha_log(h, r)
            &&& crate::transcript::log_valid(
                h,
                before_commit + round_events(vals(r.fri_commit.layer_roots@), betas),
                F::p(),
            )
            &&& indices == cpu_indices(h, r)
            &&& openings.len() == indices.len()
            &&& r.queries@.len() == indices.len()
            &&& forall|q: int| 0 <= q < openings.len() ==> (#[trigger] openings[q])@.len() == trees.len()
            &&& forall|q: int, j: int|
                0 <= q < openings.len() && 0 <= j < trees.len() ==> #[trigger] crate::layers::honest_opening::<F>(
                    layers,
                    trees,
                    big_n,
                    indices[q] as nat,
                    j,
                    openings[q]@[j],
                )
            &&& forall|q: int| 0 <= q < openings.len() ==> #[trigger] r.queries@[q].fri == openings[q]
            &&& crate::fri_laws::layer_is_poly::<F>(layers[0], c, 3, big_n, 0)
            &&& c.len() <= 8 * n
        }),
    ensures
        crate::layers::fri_accepts::<F>(
            h,
            r.fri_commit,
            crate::cpu_verifier::cpu_betas(h, r),
            3int % F::p(),
            (r.trace_len * r.params.blowup_factor) as nat,
            1 * (r.params.blowup_factor / COMPOSITION_DEGREE_BOUND_FACTOR) as nat,
            1,
            cpu_indices(h, r),
            crate::cpu_verifier::cpu_fri_openings(r.queries@),
        ),
{
    F::lemma_prime_field();
    F::lemma_modulus();
    let n = r.trace_len as nat;
    let b = r.params.blowup_factor as nat;
    let big_n = n * b;
    let fin = b / 8;
    let rounds = fold_rounds(big_n, fin);
    lemma_pow2_eighth(b);
    let kn = choose|kk: nat| pow2(kk) == n;
    let kf = choose|kk: nat| pow2(kk) == fin;
    vstd::arithmetic::power2::lemma2_to64();
    vstd::arithmetic::power2::lemma_pow2_adds(kf, 3);
    assert(b == pow2(kf + 3));
    vstd::arithmetic::power2::lemma_pow2_adds(kn, kf + 3);
    assert(big_n == pow2(kn + kf + 3));
    crate::fft::lemma_log2_of(kn + kf + 3);
    crate::fft::lemma_log2_of(kf);
    assert(rounds == kn + 3);
    crate::layers::lemma_halvings_pow2(kn + kf + 3, kn + 3);
    assert(halvings(big_n, rounds) == fin);
    vstd::arithmetic::power2::lemma_pow2_adds(kn, 3);
    assert(pow2(rounds) == 8 * n) by {
        assert(pow2(kn + 3) == pow2(kn) * pow2(3));
    }
    crate::layers::lemma_round_events_replayed(h, before_commit, vals(r.fri_commit.layer_roots@), betas, F::p());
    assert(betas == crate::cpu_verifier::cpu_betas(h, r));
    let fq = crate::cpu_verifier::cpu_fri_openings(r.queries@);
    assert(fq =~= openings);
    assert(1 * pow2(trees.len() as nat) == 8 * n);
    assert((1 * (r.params.blowup_factor / COMPOSITION_DEGREE_BOUND_FACTOR)) as nat == fin);
    crate::fri_laws::lemma_honest_fri_accepted::<F>(
        h,
        layers,
        trees,
        betas,
        r.fri_commit,
        3,
        big_n,
        fin,
        1,
        indices,
        openings,
        c,
    );
}

/// Completeness of the CPU proof, from the prover's commitments: a proof
/// with the statement's program hash, whose queries pass their checks,
/// whose opened rows extend the padded run, whose commit phase holds the
/// honest FRI layers, trees, challenges and openings of its composition,
/// is accepted by the verifier whenever the final polynomial has one
/// coefficient and that composition is the evaluation
/// of a polynomial with at most `8 * trace_len` coefficients.
pub proof fn lemma_honest_proof_accepted<F: Field>(
    h: PoseidonView,
    program: Seq<Instruction<F>>,
    mem: Seq<int>,
    r: Proof<F>,
    lde_rows: Seq<Vec<F>>,
    comp: Seq<int>,
    layers: Seq<Seq<int>>,
    trees: Seq<crate::merkle::MerkleTreeView>,
    betas: Seq<int>,
    before_commit: Seq<TranscriptEvent>,
    indices: Seq<usize>,
    openings: Seq<Vec<crate::layers::FriRoundOpening<F>>>,
)
    requires
        ({
            let n = r.trace_len as nat;
            let b = r.params.blowup_factor as nat;
            let big_n = n * b;
            let k = r.params.fri_final_poly_num_coeffs as nat;
            let fin = k * (b / 8);
            let rounds = fold_rounds(big_n, fin);
            &&& is_pow2_len(n)
            &&& is_pow2_len(b)
            &&& blowup_ok(r.params.blowup_factor)
            &&& n >= 1
            &&& big_n <= pow2(F::two_adicity_spec())
            &&& 3int % F::p() == 3
            &&& F::p() > 64
            &&& r.program_hash.val() == crate::poseidon::hash_many_spec(h, program_words(program), F::p())
            &&& r.queries@.len() == r.params.num_queries
            &&& (fin < big_n ==> forall|q: int| 0 <= q < r.queries@.len() ==> #[trigger] cpu_query_ok(
                h,
                r,
                cpu_indices(h, r)[q] as nat,
                r.queries@[q],
            ))
            &&& lde_rows.len() == big_n
            &&& (forall|j: int| 0 <= j < big_n ==> #[trigger] vals(lde_rows[j]@)
                == cpu_trace_lde_row::<F>(cpu_run_rows::<F>(program, mem, n), big_n, j as nat))
            &&& comp.len() == big_n
            &&& forall|j: int| 0 <= j < big_n ==> #[trigger] composition_at::<F>(
                columns_view(vals(lde_rows[j]@)),
                columns_view(vals(lde_rows[(j + b) % (big_n as int)]@)),
                cpu_lde_point::<F>(big_n, j as nat),
                n,
                last_trace_point::<F>(n),
                vals(r.claim.claimed_final_registers@),
                cpu_alpha_powers(h, r),
                num_transition_checks() as int,
                num_first_checks() as int,
            ) == Some(comp[j])
            &&& layers[0] == comp
            &&& crate::layers::prover_layers_ok::<F>(layers, trees, h, big_n)
            &&& layers.len() == rounds + 1
            &&& betas.len() == rounds
            &&& trees.len() == (if rounds == 0 { 1 } else { rounds })
            &&& crate::layers::layers_fold::<F>(layers, betas, 3, big_n)
            &&& r.fri_commit.layer_roots@.len() == trees.len()
            &&& forall|t: int| 0 <= t < trees.len() ==> #[trigger] vals(r.fri_commit.layer_roots@)[t]
                == trees[t].layers.last()[0]
            &&& crate::poly::is_normalized(vals(r.fri_commit.final_poly_coeffs@))
            &&& r.fri_commit.final_poly_coeffs@.len() <= k
            &&& (forall|i: int| 0 <= i < k ==> #[trigger] crate::poly::poly_eval(
                vals(r.fri_commit.final_poly_coeffs@),
                crate::fold::domain_point_spec::<F>(3, crate::layers::fri_generator::<F>(big_n), i as nat, rounds),
                F::p(),
            ) == layers[rounds as int][i])
            &&& before_commit == alpha_log(h, r)
            &&& crate::transcript::log_valid(
                h,
                before_commit + round_events(vals(r.fri_commit.layer_roots@), betas) + absorb_events(
                    vals(r.fri_commit.final_poly_coeffs@),
                ),
                F::p(),
            )
            &&& (fin < big_n ==> indices == cpu_indices(h, r))
            &&& openings.len() == indices.len()
            &&& indices.len() == r.queries@.len()
            &&& forall|q: int| 0 <= q < openings.len() ==> (#[trigger] openings[q])@.len() == trees.len()
            &&& forall|q: int, j: int|
                0 <= q < openings.len() && 0 <= j < trees.len() ==> #[trigger] crate::layers::honest_opening::<F>(
                    layers,
                    trees,
                    big_n,
                    indices[q] as nat,
                    j,
                    openings[q]@[j],
                )
            &&& forall|q: int| 0 <= q < openings.len() ==> #[trigger] r.queries@[q].fri == openings[q]
        }),
    ensures
        accepted_when_low_degree::<F>(h, program, mem, r),
{
    F::lemma_prime_field();
    reveal(accepted_when_low_degree);
    reveal(cpu_composition_values);
    let n = r.trace_len as nat;
    let b = r.params.blowup_factor as nat;
    let big_n = n * b;
    let comp_spec = cpu_composition_values::<F>(h, program, mem, r);
    if r.params.fri_final_poly_num_coeffs == 1 && exists|c: Seq<int>| c.len() <= 8 * r.trace_len
        && #[trigger] crate::fri_laws::layer_is_poly::<F>(comp_spec, c, 3int % F::p(), big_n, 0) {
        let c = choose|c: Seq<int>| c.len() <= 8 * r.trace_len && #[trigger] crate::fri_laws::layer_is_poly::<F>(
            comp_spec,
            c,
            3int % F::p(),
            big_n,
            0,
        );
        F::lemma_modulus();
        lemma_pow2_eighth(b);
        lemma_pow2_mul(n, b);
        let kn = choose|kk: nat| pow2(kk) == n;
        vstd::arithmetic::power2::lemma_pow2_pos(kn);
        assert(n * b >= 2) by (nonlinear_arith)
            requires n >= 1, b >= 16;
        assert(b / 8 < n * b) by (nonlinear_arith)
            requires n >= 1, b >= 16;
        let rows_v = cpu_run_rows::<F>(program, mem, n);
        assert(comp =~= comp_spec) by {
            assert forall|j: int| 0 <= j < big_n implies #[trigger] comp[j] == comp_spec[j] by {
                let jn = (j + b) % (big_n as int);
                vstd::arithmetic::div_mod::lemma_mod_bound(j + b, big_n as int);
                assert(vals(lde_rows[j]@) == cpu_trace_lde_row::<F>(rows_v, big_n, j as nat));
                assert(vals(lde_rows[jn]@) == cpu_trace_lde_row::<F>(rows_v, big_n, jn as nat));
            }
        }
        let roots = vals(r.fri_commit.layer_roots@);
        let tail = absorb_events(vals(r.fri_commit.final_poly_coeffs@));
        crate::transcript::lemma_log_valid_prefix(h, before_commit + round_events(roots, betas), tail, F::p());
        assert(1 * (b / 8) == b / 8);
        lemma_prover_fri_accepted::<F>(h, r, layers, trees, betas, before_commit, indices, openings, c);
        assert(cpu_accepts(h, program, r));
    }
}

/// A power of two that is a multiple of eight and above eight has a power
/// of two as its eighth, of at least two.
proof fn lemma_pow2_eighth(b: nat)
    requires
        is_pow2_len(b),
        b % 8 == 0,
        b > 8,
    ensures
        is_pow2_len(b / 8),
        b / 8 >= 2,
        b == 8 * (b / 8),
{
    let e = choose|e: nat| pow2(e) == b;
    vstd::arithmetic::power2::lemma2_to64();
    if e < 4 {
        if e == 0 { } else if e == 1 { } else if e == 2 { } else { }
        assert(false);
    }
    vstd::arithmetic::power2::lemma_pow2_adds((e - 3) as nat, 3);
    assert(pow2(3) == 8);
    assert(b == pow2((e - 3) as nat) * 8);
    assert(b / 8 == pow2((e - 3) as nat));
    if e == 4 {
        assert(b / 8 == 2);
    } else {
        crate::fft::lemma_pow2_le(1, (e - 3) as nat);
    }
}


/// The facts the prover draws from its parameters.
proof fn lemma_prover_params<F: Field>(
    program: Seq<Instruction<F>>,
    initial_memory: Seq<F>,
    trace_len: usize,
    params: ProverParams,
)
    requires
        cpu_prover_params_ok(program, initial_memory, trace_len, params),
    ensures
        ({
            let n = trace_len;
            let blowup = params.blowup_factor;
            let k = params.fri_final_poly_num_coeffs;
            let big_n = n * blowup;
            let fin = k * (blowup / 8);
            &&& program_valid(program)
            &&& initial_memory.len() <= MEMORY_SIZE
            &&& program.len() * 6 <= usize::MAX
            &&& run_stays_in_bounds(program, initial_state(vals(initial_memory)), n as nat, true)
            &&& is_pow2_len(n as nat)
            &&& is_pow2_len(blowup as nat)
            &&& is_pow2_len(big_n as nat)
            &&& blowup_ok(blowup)
            &&& is_pow2_len(k as nat)
            &&& is_pow2_len(fin as nat)
            &&& k >= 1
            &&& n >= 1
            &&& blowup >= 16
            &&& n <= big_n
            &&& blowup <= big_n
            &&& 2 * k <= fin
            &&& fin <= big_n
            &&& big_n <= pow2(F::two_adicity_spec())
            &&& 2 * big_n <= usize::MAX
                    &&& 3int % F::p() == 3
            &&& F::p() > 64
            &&& forall|j: nat| j < big_n ==> #[trigger] composition_defined::<F>(
                cpu_lde_point::<F>(big_n as nat, j),
                n as nat,
                last_trace_point::<F>(n as nat),
            )
        }),
{
    reveal(cpu_prover_params_ok);
    let n = trace_len;
    let blowup = params.blowup_factor;
    let k = params.fri_final_poly_num_coeffs;
    F::lemma_modulus();
    lemma_pow2_mul(n as nat, blowup as nat);
    lemma_pow2_eighth(blowup as nat);
    lemma_pow2_mul(k as nat, (blowup / 8) as nat);
    let kk = choose|kk: nat| pow2(kk) == k;
    vstd::arithmetic::power2::lemma_pow2_pos(kk);
    let kn = choose|kk: nat| pow2(kk) == n;
    vstd::arithmetic::power2::lemma_pow2_pos(kn);
    assert(n * blowup >= blowup) by (nonlinear_arith)
        requires n >= 1;
    assert(n * blowup >= n) by (nonlinear_arith)
        requires blowup >= 1;
    assert(k * (blowup / 8) >= 2 * k) by (nonlinear_arith)
        requires blowup / 8 >= 2;
    vstd::arithmetic::div_mod::lemma_small_mod(3, F::p() as nat);
}


/// The prover's query indices are the ones the verifier derives: both
/// transcripts see the same events, and a valid log fixes every challenge.
proof fn lemma_prover_indices<F: Field>(
    h: PoseidonView,
    r: Proof<F>,
    before_commit: Seq<TranscriptEvent>,
    after_commit: Seq<TranscriptEvent>,
    commit_sponge: SpongeView,
    betas: Seq<int>,
    indices: Seq<usize>,
)
    requires
        before_commit == alpha_log(h, r),
        betas.len() == r.fri_commit.layer_roots@.len(),
        after_commit == before_commit + round_events(vals(r.fri_commit.layer_roots@), betas) + absorb_events(
            vals(r.fri_commit.final_poly_coeffs@),
        ),
        log_valid(h, after_commit, F::p()),
        commit_sponge == log_state(h, after_commit, F::p()),
        indices.len() == r.params.num_queries,
        forall|j: int| 0 <= j < indices.len() ==> #[trigger] indices[j] == (squeeze_spec(
            h,
            sponge_after_squeezes(h, commit_sponge, j as nat, F::p()),
            F::p(),
        ).1 % ((r.trace_len * r.params.blowup_factor / 2) as int)) as usize,
    ensures
        indices == cpu_indices(h, r),
{
    let roots = vals(r.fri_commit.layer_roots@);
    let tail = absorb_events(vals(r.fri_commit.final_poly_coeffs@));
    crate::transcript::lemma_log_valid_prefix(h, before_commit + round_events(roots, betas), tail, F::p());
    lemma_round_events_replayed(h, before_commit, roots, betas, F::p());
    assert(commit_sponge == cpu_query_sponge(h, r));
    assert(indices =~= cpu_indices(h, r));
}


/// Every query of the honest prover passes the verifier's checks before
/// FRI: the opened rows verify against the trace root, and FRI's first
/// round opens the composition computed from them.
proof fn lemma_prover_queries<F: Field>(
    h: PoseidonView,
    r: Proof<F>,
    indices: Seq<usize>,
    lde_rows: Seq<Vec<F>>,
    layers: Seq<Seq<int>>,
    trees: Seq<crate::merkle::MerkleTreeView>,
    all_openings: Seq<Vec<crate::layers::FriRoundOpening<F>>>,
    alpha_powers: Seq<int>,
)
    requires
        indices == cpu_indices(h, r),
        indices.len() == r.queries@.len(),
        all_openings.len() == indices.len(),
        alpha_powers == cpu_alpha_powers(h, r),
        lde_rows.len() == r.trace_len * r.params.blowup_factor,
        2 * lde_rows.len() <= usize::MAX,
        trees.len() >= 1,
        forall|j: int| 0 <= j < indices.len() ==> #[trigger] indices[j] < lde_rows.len() / 2,
        forall|j: int| 0 <= j < indices.len() ==> {
            let idx = #[trigger] indices[j];
            let big_n = lde_rows.len() as int;
            let half = big_n / 2;
            let b = r.params.blowup_factor;
            let root_val = r.trace_root.val();
            let o = r.queries@[j];
            &&& trace_opening_ok(h, root_val, o.trace_here, idx as nat)
            &&& trace_opening_ok(h, root_val, o.trace_here_next, ((idx + b) % big_n) as nat)
            &&& trace_opening_ok(h, root_val, o.trace_paired, (idx + half) as nat)
            &&& trace_opening_ok(h, root_val, o.trace_paired_next, ((idx + half + b) % big_n) as nat)
            &&& o.trace_here.values@ == lde_rows[idx as int]@
            &&& o.trace_here_next.values@ == lde_rows[(idx + b) % big_n]@
            &&& o.trace_paired.values@ == lde_rows[idx + half]@
            &&& o.trace_paired_next.values@ == lde_rows[(idx + half + b) % big_n]@
            &&& o.fri == all_openings[j]
        },
        forall|q: int| 0 <= q < all_openings.len() ==> (#[trigger] all_openings[q])@.len() == trees.len(),
        forall|q: int, jj: int|
            0 <= q < all_openings.len() && 0 <= jj < trees.len() ==> #[trigger] honest_opening::<F>(
                layers,
                trees,
                lde_rows.len() as nat,
                indices[q] as nat,
                jj,
                all_openings[q]@[jj],
            ),
        forall|j: int| 0 <= j < lde_rows.len() ==> #[trigger] composition_at::<F>(
            crate::air_for_isa::columns_view(vals(lde_rows[j]@)),
            crate::air_for_isa::columns_view(vals(lde_rows[(j + r.params.blowup_factor) % (lde_rows.len() as int)]@)),
            cpu_lde_point::<F>(lde_rows.len() as nat, j as nat),
            r.trace_len as nat,
            last_trace_point::<F>(r.trace_len as nat),
            vals(r.claim.claimed_final_registers@),
            alpha_powers,
            num_transition_checks() as int,
            num_first_checks() as int,
        ) == Some(layers[0][j]),
    ensures
        forall|q: int| 0 <= q < r.queries@.len() ==> #[trigger] cpu_query_ok(h, r, indices[q] as nat, r.queries@[q]),
{
    let big_n = lde_rows.len();
    let half = big_n / 2;
    let b = r.params.blowup_factor;
    assert forall|q: int| 0 <= q < r.queries@.len() implies #[trigger] cpu_query_ok(h, r, indices[q] as nat, r.queries@[q]) by {
        let idx = indices[q];
        let j: int = idx as int;
        let j2: int = idx as int + half as int;
        assert(idx < half);
        assert(honest_opening::<F>(layers, trees, big_n as nat, idx as nat, 0, all_openings[q]@[0]));
        vstd::arithmetic::div_mod::lemma_small_mod(idx as nat, half as nat);
        assert(composition_at::<F>(
            crate::air_for_isa::columns_view(vals(lde_rows[j]@)),
            crate::air_for_isa::columns_view(vals(lde_rows[(j + r.params.blowup_factor) % (lde_rows.len() as int)]@)),
            cpu_lde_point::<F>(lde_rows.len() as nat, j as nat),
            r.trace_len as nat,
            last_trace_point::<F>(r.trace_len as nat),
            vals(r.claim.claimed_final_registers@),
            alpha_powers,
            num_transition_checks() as int,
            num_first_checks() as int,
        ) == Some(layers[0][j]));
        assert(composition_at::<F>(
            crate::air_for_isa::columns_view(vals(lde_rows[j2]@)),
            crate::air_for_isa::columns_view(vals(lde_rows[(j2 + r.params.blowup_factor) % (lde_rows.len() as int)]@)),
            cpu_lde_point::<F>(lde_rows.len() as nat, j2 as nat),
            r.trace_len as nat,
            last_trace_point::<F>(r.trace_len as nat),
            vals(r.claim.claimed_final_registers@),
            alpha_powers,
            num_transition_checks() as int,
            num_first_checks() as int,
        ) == Some(layers[0][j2]));
    }
}

/// Proves that `program`, run from `initial_memory` for `trace_len`
/// cycles, satisfies the CPU's AIR with final registers `claim`: commits
/// to the low-degree extension of every AIR column (rows hashed as Merkle
/// leaves), draws the constraint challenge, folds the composition with FRI
/// and opens each query's four rows and FRI rounds.
pub fn prove<F: Field>(
    hasher: &Poseidon<F>,
    program: &[Instruction<F>],
    initial_memory: Vec<F>,
    trace_len: usize,
    params: ProverParams,
    claim: PublicClaim<F>,
) -> (r: Proof<F>)
    requires
        cpu_prover_params_ok(program@, initial_memory@, trace_len, params),
    ensures
        r.claim == claim,
        r.params == params,
        r.trace_len == trace_len,
        r.program_hash.val() == crate::poseidon::hash_many_spec(hasher@, program_words(program@), F::p()),
        r.queries@.len() == params.num_queries,
        rows_well_shaped(r.queries@),
        params.fri_final_poly_num_coeffs * (params.blowup_factor / COMPOSITION_DEGREE_BOUND_FACTOR) < trace_len
            * params.blowup_factor ==> forall|q: int| 0 <= q < r.queries@.len() ==> #[trigger] cpu_query_ok(
            hasher@,
            r,
            cpu_indices(hasher@, r)[q] as nat,
            r.queries@[q],
        ),
        exists|t: crate::merkle::MerkleTreeView| {
            let big_n = (trace_len * params.blowup_factor) as nat;
            let rows = cpu_run_rows::<F>(program@, vals(initial_memory@), trace_len as nat);
            &&& t.hasher == hasher@
            &&& #[trigger] crate::merkle::layers_wf(t.layers, hasher@, F::p())
            &&& t.layers[0].len() == big_n
            &&& forall|i: int| 0 <= i < big_n ==> #[trigger] t.layers[0][i] == crate::poseidon::hash_many_spec(
                hasher@,
                cpu_trace_lde_row::<F>(rows, big_n, i as nat),
                F::p(),
            )
            &&& r.trace_root.val() == t.layers.last()[0]
        },
{
    proof {
        F::lemma_prime_field();
    }
    let ghost mem = vals(initial_memory@);
    let n = trace_len;
    let blowup = params.blowup_factor;
    let k = params.fri_final_poly_num_coeffs;
    let ghost h = hasher@;
    let ghost p = F::p();
    proof {
        lemma_prover_params::<F>(program@, initial_memory@, trace_len, params);
    }
    let big_n = n * blowup;
    let offset = F::from_u64(3);
    let (rows, lde_rows, lde_domain, trace_tree) = commit_trace(hasher, program, initial_memory, n, blowup, offset);
    let trace_root = trace_tree.root();
    let prog_hash = program_hash(hasher, program);
    let mut transcript = start_transcript(hasher, n, blowup, prog_hash, &claim.claimed_final_registers, trace_root);
    transcript.check_log();
    let alpha = transcript.squeeze_field();
    proof {
        lemma_check_counts(rows@[0]@, rows@[0]@, F::p());
    }
    let num_transition = transition_checks(&rows[0], &rows[0]).len();
    let num_first = first_row_boundary_checks(&rows[0]).len();
    let num_last = last_row_boundary_checks(&rows[0]).len() + NUM_REGISTERS;
    let total_checks = num_transition + num_first + num_last;
    let alpha_powers = powers_of(alpha, total_checks);
    let last = last_point_of::<F>(n);
    proof {
        assert forall|j: int| 0 <= j < big_n implies #[trigger] vals(lde_domain@)[j] == cpu_lde_point::<F>(big_n as nat, j as nat) by {}
    }
    let composition_evals = composition_on_coset(
        &lde_rows,
        &lde_domain,
        n,
        blowup,
        last,
        &claim.claimed_final_registers,
        &alpha_powers,
        num_transition,
        num_first,
    );
    let ghost composition = vals(composition_evals@);
    let final_size = params.fri_final_layer_size();
    let ghost before_commit = transcript.log();
    let fri_prover = FriProver::commit(hasher, composition_evals, offset, final_size, k, &mut transcript);
    transcript.check_log();
    let ghost after_commit = transcript.log();
    let ghost commit_sponge = transcript.sponge();
    let bound = fri_prover.index_bound();
    let nq = params.num_queries;
    let indices = draw_indices(&mut transcript, bound, nq);
    let fri_openings = fri_prover.open(indices.as_slice());
    let ghost all_openings = fri_openings@;
    let half = big_n / 2;
    let ghost root_val = trace_tree@.layers.last()[0];
    let queries = open_queries(hasher, &trace_tree, &lde_rows, &indices, fri_openings, blowup);
    let fri_commit = copy_fri_commit(fri_prover.commit_proof());
    let r = Proof { claim, params, trace_len: n, trace_root, program_hash: prog_hash, fri_commit, queries };
    proof {
        if inverses_correct::<F>() {
            let rows_v = cpu_run_rows::<F>(program@, mem, n as nat);
            assert forall|i: int| 0 <= i < big_n implies #[trigger] trace_tree@.layers[0][i]
                == crate::poseidon::hash_many_spec(h, cpu_trace_lde_row::<F>(rows_v, big_n as nat, i as nat), p) by {
                assert(vals(lde_rows@[i]@) == cpu_trace_lde_row::<F>(rows_v, big_n as nat, i as nat));
            }
        }
        assert(prelude_log(r) == before_commit.drop_last());
        assert(vals(alpha_powers@) =~= cpu_alpha_powers(h, r));
        assert(before_commit =~= alpha_log(h, r));
        if final_size < big_n {
            crate::toystark::prover::lemma_log2_strict(big_n as nat, final_size as nat);
            lemma_prover_indices::<F>(h, r, before_commit, after_commit, commit_sponge, fri_prover.betas(), indices@);
            lemma_prover_queries::<F>(
                h,
                r,
                indices@,
                lde_rows@,
                fri_prover.layers(),
                fri_prover.tree_views(),
                all_openings,
                vals(alpha_powers@),
            );
        }
    }
    r
}

} // verus!
