//! The AIR constraints of the CPU: polynomial checks that vanish exactly
//! on rows (and consecutive pairs of rows) of an honest execution.

use vstd::prelude::*;
use vstd::string::StringExecFns;
use crate::field::{Field, fa, fs, fm};
use crate::opcodes::{NUM_OPCODES, NUM_REGISTERS};
use crate::opcode_id;
use crate::air_for_isa::{Row, RowView, dot, selected_value};
use crate::text::{decimal, push_decimal};

verus! {

/// A named constraint value; the constraint holds when the value is zero.
pub struct Check<F: Field> {
    pub name: &'static str,
    pub value: F,
}

/// A constraint as plain values: its name and its value.
pub open spec fn check_view<F: Field>(c: Check<F>) -> (Seq<char>, int) {
    (c.name@, c.value.val())
}

pub open spec fn check_views<F: Field>(s: Seq<Check<F>>) -> Seq<(Seq<char>, int)> {
    s.map_values(|c: Check<F>| check_view(c))
}

impl<F: Field> Check<F> {
    fn new(name: &'static str, value: F) -> (r: Self)
        ensures
            r.name == name,
            r.value == value,
    {
        Check { name, value }
    }

    /// Does the constraint hold?
    pub fn holds(&self) -> (r: bool)
        ensures
            r == (self.value.val() == 0),
    {
        self.value.is_zero()
    }
}

/// `s[0] + s[1] + ... + s[n-1]`, summed left to right in the field.
pub open spec fn field_sum(s: Seq<int>, n: nat, p: int) -> int
    decreases n,
{
    if n == 0 {
        0
    } else {
        fa(field_sum(s, (n - 1) as nat, p), s[n - 1], p)
    }
}

/// `b * (b - 1)` for each entry: zero exactly on booleans.
pub open spec fn bool_checks(bits: Seq<int>, name: Seq<char>, p: int) -> Seq<(Seq<char>, int)> {
    Seq::new(bits.len(), |k: int| (name, fm(bits[k], fs(bits[k], 1, p), p)))
}

/// The entries sum to one, and each is boolean.
pub open spec fn one_hot_checks(bits: Seq<int>, sum_name: Seq<char>, bool_name: Seq<char>, p: int) -> Seq<
    (Seq<char>, int),
> {
    seq![(sum_name, fs(field_sum(bits, bits.len(), p), 1, p))] + bool_checks(bits, bool_name, p)
}

/// The value a row writes to its destination register.
pub open spec fn write_value_of(cur: RowView, p: int) -> int {
    let ra = dot(cur.is_read_a_r, cur.registers, NUM_REGISTERS as nat, p);
    let rb = dot(cur.is_read_b_r, cur.registers, NUM_REGISTERS as nat, p);
    fa(
        fa(
            fa(fm(cur.sel[0], cur.imm, p), fm(cur.sel[1], cur.mem_read_value, p), p),
            fm(cur.sel[3], fa(ra, rb, p), p),
            p,
        ),
        fm(cur.sel[4], fm(ra, rb, p), p),
        p,
    )
}

/// One if the row's instruction writes a register.
pub open spec fn writes_register_of(cur: RowView, p: int) -> int {
    fa(fa(fa(cur.sel[0], cur.sel[1], p), cur.sel[3], p), cur.sel[4], p)
}

/// `next.registers[r]` is `cur.registers[r]`, replaced by the written value when written.
pub open spec fn register_checks(cur: RowView, next: RowView, p: int) -> Seq<(Seq<char>, int)> {
    Seq::new(
        NUM_REGISTERS as nat,
        |r: int|
            (
                "register_transition"@,
                fs(
                    next.registers[r],
                    fa(
                        cur.registers[r],
                        fm(
                            fm(writes_register_of(cur, p), cur.is_write_r[r], p),
                            fs(write_value_of(cur, p), cur.registers[r], p),
                            p,
                        ),
                        p,
                    ),
                    p,
                ),
            ),
    )
}

/// The program counter the next row must hold.
pub open spec fn expected_pc_of(cur: RowView, p: int) -> int {
    let falls_through = fs(fs(fs(1, cur.sel[5], p), cur.sel[6], p), cur.sel[7], p);
    let taken = fs(1, cur.jnz_is_zero, p);
    fa(
        fa(
            fa(
                fm(cur.sel[5], cur.addr, p),
                fm(cur.sel[6], fa(fm(cur.jnz_is_zero, fa(cur.pc, 1, p), p), fm(taken, cur.addr, p), p), p),
                p,
            ),
            fm(cur.sel[7], cur.pc, p),
            p,
        ),
        fm(falls_through, fa(cur.pc, 1, p), p),
        p,
    )
}

/// Every transition constraint between consecutive rows, in order.
pub open spec fn transition_check_list(cur: RowView, next: RowView, p: int) -> Seq<(Seq<char>, int)> {
    let ra = dot(cur.is_read_a_r, cur.registers, NUM_REGISTERS as nat, p);
    seq![("opcode_selector_sums_to_one"@, fs(field_sum(cur.sel, NUM_OPCODES as nat, p), 1, p))]
        + bool_checks(cur.sel, "opcode_selector_is_boolean"@, p)
        + one_hot_checks(cur.is_write_r, "write_index_sums_to_one"@, "write_index_is_boolean"@, p)
        + one_hot_checks(cur.is_read_a_r, "read_a_index_sums_to_one"@, "read_a_index_is_boolean"@, p)
        + one_hot_checks(cur.is_read_b_r, "read_b_index_sums_to_one"@, "read_b_index_is_boolean"@, p)
        + register_checks(cur, next, p)
        + seq![
        ("store_writes_the_read_register"@, fm(cur.sel[2], fs(cur.mem_write_value, ra, p), p)),
        ("is_zero_kills_nonzero_witness"@, fm(ra, cur.jnz_is_zero, p)),
        ("is_zero_inverse_consistency"@, fs(fm(ra, cur.jnz_inv, p), fs(1, cur.jnz_is_zero, p), p)),
        ("pc_transition"@, fs(next.pc, expected_pc_of(cur, p), p)),
        ("halt_is_sticky"@, fm(cur.sel[7], fs(1, next.sel[7], p), p)),
    ]
}

/// The boundary constraints on the first row: pc and registers start at zero.
pub open spec fn first_row_check_list(row: RowView) -> Seq<(Seq<char>, int)> {
    seq![("initial_pc_is_zero"@, row.pc)] + Seq::new(
        NUM_REGISTERS as nat,
        |r: int| ("initial_register_is_zero"@, row.registers[r]),
    )
}

/// The boundary constraint on the last row: it is a `Halt`.
pub open spec fn last_row_check_list(row: RowView, p: int) -> Seq<(Seq<char>, int)> {
    seq![("final_row_is_halted"@, fs(row.sel[7], 1, p))]
}

/// The register one-hot vectors the transition checks cover.
enum OneHotLabel {
    Write,
    ReadA,
    ReadB,
}

spec fn one_hot_sum_name_spec(label: OneHotLabel) -> Seq<char> {
    match label {
        OneHotLabel::Write => "write_index_sums_to_one"@,
        OneHotLabel::ReadA => "read_a_index_sums_to_one"@,
        OneHotLabel::ReadB => "read_b_index_sums_to_one"@,
    }
}

spec fn one_hot_bool_name_spec(label: OneHotLabel) -> Seq<char> {
    match label {
        OneHotLabel::Write => "write_index_is_boolean"@,
        OneHotLabel::ReadA => "read_a_index_is_boolean"@,
        OneHotLabel::ReadB => "read_b_index_is_boolean"@,
    }
}

fn one_hot_sum_name(label: &OneHotLabel) -> (r: &'static str)
    ensures
        r@ == one_hot_sum_name_spec(*label),
{
    match label {
        OneHotLabel::Write => "write_index_sums_to_one",
        OneHotLabel::ReadA => "read_a_index_sums_to_one",
        OneHotLabel::ReadB => "read_b_index_sums_to_one",
    }
}

fn one_hot_bool_name(label: &OneHotLabel) -> (r: &'static str)
    ensures
        r@ == one_hot_bool_name_spec(*label),
{
    match label {
        OneHotLabel::Write => "write_index_is_boolean",
        OneHotLabel::ReadA => "read_a_index_is_boolean",
        OneHotLabel::ReadB => "read_b_index_is_boolean",
    }
}

fn push_bool_checks<F: Field>(checks: &mut Vec<Check<F>>, name: &'static str, bits: &[F])
    ensures
        check_views(final(checks)@) == check_views(old(checks)@) + bool_checks(
            crate::field::vals(bits@),
            name@,
            F::p(),
        ),
{
    let mut k: usize = 0;
    while k < bits.len()
        invariant
            k <= bits@.len(),
            check_views(checks@) == check_views(old(checks)@) + bool_checks(
                crate::field::vals(bits@),
                name@,
                F::p(),
            ).subrange(0, k as int),
        decreases bits.len() - k,
    {
        let b = bits[k];
        let c = Check::new(name, b.fmul(b.fsub(F::one())));
        let ghost before = checks@;
        checks.push(c);
        k = k + 1;
        proof {
            assert(check_views(checks@) =~= check_views(before).push(check_view(c)));
            assert(check_views(checks@) =~= check_views(old(checks)@) + bool_checks(
                crate::field::vals(bits@),
                name@,
                F::p(),
            ).subrange(0, k as int));
        }
    }
    proof {
        assert(bool_checks(crate::field::vals(bits@), name@, F::p()).subrange(0, bits@.len() as int)
            =~= bool_checks(crate::field::vals(bits@), name@, F::p()));
    }
}

fn field_sum_exec<F: Field>(bits: &[F]) -> (r: F)
    ensures
        r.val() == field_sum(crate::field::vals(bits@), bits@.len(), F::p()),
{
    let mut acc = F::zero();
    let mut k: usize = 0;
    while k < bits.len()
        invariant
            k <= bits@.len(),
            acc.val() == field_sum(crate::field::vals(bits@), k as nat, F::p()),
        decreases bits.len() - k,
    {
        acc = acc.fadd(bits[k]);
        k = k + 1;
    }
    acc
}

fn push_one_hot_checks<F: Field>(checks: &mut Vec<Check<F>>, label: OneHotLabel, bits: &[F; NUM_REGISTERS])
    ensures
        check_views(final(checks)@) == check_views(old(checks)@) + one_hot_checks(
            crate::field::vals(bits@),
            one_hot_sum_name_spec(label),
            one_hot_bool_name_spec(label),
            F::p(),
        ),
{
    let sum = field_sum_exec(bits.as_slice());
    let c = Check::new(one_hot_sum_name(&label), sum.fsub(F::one()));
    let ghost before = checks@;
    checks.push(c);
    proof {
        assert(check_views(checks@) =~= check_views(before).push(check_view(c)));
    }
    push_bool_checks(checks, one_hot_bool_name(&label), bits.as_slice());
    proof {
        assert(check_views(final(checks)@) =~= check_views(old(checks)@) + one_hot_checks(
            crate::field::vals(bits@),
            one_hot_sum_name_spec(label),
            one_hot_bool_name_spec(label),
            F::p(),
        ));
    }
}

/// Every transition constraint between `cur` and the row after it.
pub fn transition_checks<F: Field>(cur: &Row<F>, next: &Row<F>) -> (r: Vec<Check<F>>)
    ensures
        check_views(r@) == transition_check_list(cur@, next@, F::p()),
{
    let mut checks: Vec<Check<F>> = Vec::new();
    let one = F::one();

    let sel_sum = field_sum_exec(cur.sel.as_slice());
    let c = Check::new("opcode_selector_sums_to_one", sel_sum.fsub(one));
    checks.push(c);
    proof {
        assert(check_views(checks@) =~= seq![check_view(c)]);
    }
    push_bool_checks(&mut checks, "opcode_selector_is_boolean", cur.sel.as_slice());

    push_one_hot_checks(&mut checks, OneHotLabel::Write, &cur.is_write_r);
    push_one_hot_checks(&mut checks, OneHotLabel::ReadA, &cur.is_read_a_r);
    push_one_hot_checks(&mut checks, OneHotLabel::ReadB, &cur.is_read_b_r);

    let read_a_val = selected_value(&cur.is_read_a_r, &cur.registers);
    let read_b_val = selected_value(&cur.is_read_b_r, &cur.registers);

    let write_value = cur.sel[opcode_id::LOAD_IMM].fmul(cur.imm)
        .fadd(cur.sel[opcode_id::LOAD].fmul(cur.mem_read_value))
        .fadd(cur.sel[opcode_id::ADD].fmul(read_a_val.fadd(read_b_val)))
        .fadd(cur.sel[opcode_id::MUL].fmul(read_a_val.fmul(read_b_val)));
    let writes_a_register = cur.sel[opcode_id::LOAD_IMM]
        .fadd(cur.sel[opcode_id::LOAD])
        .fadd(cur.sel[opcode_id::ADD])
        .fadd(cur.sel[opcode_id::MUL]);

    let ghost before_regs = check_views(checks@);
    let mut r: usize = 0;
    while r < NUM_REGISTERS
        invariant
            r <= NUM_REGISTERS,
            write_value.val() == write_value_of(cur@, F::p()),
            writes_a_register.val() == writes_register_of(cur@, F::p()),
            check_views(checks@) == before_regs + register_checks(cur@, next@, F::p()).subrange(0, r as int),
        decreases NUM_REGISTERS - r,
    {
        let expected_next = cur.registers[r].fadd(
            writes_a_register.fmul(cur.is_write_r[r]).fmul(write_value.fsub(cur.registers[r])),
        );
        let c = Check::new("register_transition", next.registers[r].fsub(expected_next));
        let ghost before = checks@;
        checks.push(c);
        r = r + 1;
        proof {
            assert(check_views(checks@) =~= check_views(before).push(check_view(c)));
            assert(check_views(checks@) =~= before_regs + register_checks(cur@, next@, F::p()).subrange(0, r as int));
        }
    }
    proof {
        assert(register_checks(cur@, next@, F::p()).subrange(0, NUM_REGISTERS as int) =~= register_checks(cur@, next@, F::p()));
    }
    let ghost before_tail = check_views(checks@);

    let c1 = Check::new(
        "store_writes_the_read_register",
        cur.sel[opcode_id::STORE].fmul(cur.mem_write_value.fsub(read_a_val)),
    );
    checks.push(c1);
    let c2 = Check::new("is_zero_kills_nonzero_witness", read_a_val.fmul(cur.jnz_is_zero));
    checks.push(c2);
    let c3 = Check::new(
        "is_zero_inverse_consistency",
        read_a_val.fmul(cur.jnz_inv).fsub(one.fsub(cur.jnz_is_zero)),
    );
    checks.push(c3);

    let falls_through = one.fsub(cur.sel[opcode_id::JMP]).fsub(cur.sel[opcode_id::JNZ]).fsub(
        cur.sel[opcode_id::HALT],
    );
    let jnz_branch_taken = one.fsub(cur.jnz_is_zero);
    let expected_pc = cur.sel[opcode_id::JMP].fmul(cur.addr)
        .fadd(cur.sel[opcode_id::JNZ].fmul(
            cur.jnz_is_zero.fmul(cur.pc.fadd(one)).fadd(jnz_branch_taken.fmul(cur.addr)),
        ))
        .fadd(cur.sel[opcode_id::HALT].fmul(cur.pc))
        .fadd(falls_through.fmul(cur.pc.fadd(one)));
    let c4 = Check::new("pc_transition", next.pc.fsub(expected_pc));
    checks.push(c4);
    let c5 = Check::new(
        "halt_is_sticky",
        cur.sel[opcode_id::HALT].fmul(one.fsub(next.sel[opcode_id::HALT])),
    );
    checks.push(c5);
    proof {
        assert(check_views(checks@) =~= before_tail + seq![
            check_view(c1),
            check_view(c2),
            check_view(c3),
            check_view(c4),
            check_view(c5),
        ]);
        assert(check_views(checks@) =~= transition_check_list(cur@, next@, F::p()));
    }
    checks
}

/// The boundary constraints on the first row.
pub fn first_row_boundary_checks<F: Field>(row: &Row<F>) -> (r: Vec<Check<F>>)
    ensures
        check_views(r@) == first_row_check_list(row@),
{
    let mut checks: Vec<Check<F>> = Vec::new();
    let c = Check::new("initial_pc_is_zero", row.pc);
    checks.push(c);
    let mut r: usize = 0;
    proof {
        assert(check_views(checks@) =~= seq![("initial_pc_is_zero"@, row@.pc)]);
    }
    while r < NUM_REGISTERS
        invariant
            r <= NUM_REGISTERS,
            check_views(checks@) == first_row_check_list(row@).subrange(0, r + 1),
        decreases NUM_REGISTERS - r,
    {
        let c = Check::new("initial_register_is_zero", row.registers[r]);
        let ghost before = checks@;
        checks.push(c);
        r = r + 1;
        proof {
            assert(check_views(checks@) =~= check_views(before).push(check_view(c)));
            assert(check_views(checks@) =~= first_row_check_list(row@).subrange(0, r + 1));
        }
    }
    proof {
        assert(first_row_check_list(row@).subrange(0, 7) =~= first_row_check_list(row@));
    }
    checks
}

/// The boundary constraint on the last row.
pub fn last_row_boundary_checks<F: Field>(row: &Row<F>) -> (r: Vec<Check<F>>)
    ensures
        check_views(r@) == last_row_check_list(row@, F::p()),
{
    let c = Check::new("final_row_is_halted", row.sel[opcode_id::HALT].fsub(F::one()));
    let v = vec![c];
    proof {
        assert(check_views(v@) =~= last_row_check_list(row@, F::p()));
    }
    v
}

/// The boundary constraints of a non-empty trace: first row, then last row.
pub fn boundary_checks<F: Field>(rows: &[Row<F>]) -> (r: Vec<Check<F>>)
    requires
        rows@.len() > 0,
    ensures
        check_views(r@) == first_row_check_list(rows@[0]@) + last_row_check_list(
            rows@.last()@,
            F::p(),
        ),
{
    let mut checks = first_row_boundary_checks(&rows[0]);
    let last = last_row_boundary_checks(&rows[rows.len() - 1]);
    let ghost a = checks@;
    let mut k: usize = 0;
    while k < last.len()
        invariant
            k <= last@.len(),
            checks@ == a + last@.subrange(0, k as int),
        decreases last.len() - k,
    {
        let c = Check::new(last[k].name, last[k].value);
        checks.push(c);
        k = k + 1;
        proof {
            assert(checks@ =~= a + last@.subrange(0, k as int));
        }
    }
    proof {
        assert(last@.subrange(0, last@.len() as int) =~= last@);
        assert(check_views(checks@) =~= check_views(a) + check_views(last@));
    }
    checks
}

/// The names of the checks in a list that do not hold, in order; the first
/// is the one reported.
pub open spec fn first_failure(l: Seq<(Seq<char>, int)>) -> Option<Seq<char>>
    decreases l.len(),
{
    if l.len() == 0 {
        None
    } else if l[0].1 != 0 {
        Some(l[0].0)
    } else {
        first_failure(l.drop_first())
    }
}

/// The first failing transition constraint at rows `i..`, with its row.
pub open spec fn first_transition_failure(rows: Seq<RowView>, i: int, p: int) -> Option<(Seq<char>, int)>
    decreases rows.len() - i,
{
    if i < 0 || i + 1 >= rows.len() {
        None
    } else if first_failure(transition_check_list(rows[i], rows[i + 1], p)) is Some {
        Some((first_failure(transition_check_list(rows[i], rows[i + 1], p))->0, i))
    } else {
        first_transition_failure(rows, i + 1, p)
    }
}

/// The views of a sequence of rows.
pub open spec fn row_views<F: Field>(rows: Seq<Row<F>>) -> Seq<RowView> {
    rows.map_values(|r: Row<F>| r@)
}

/// What `check_trace` reports for a non-empty trace.
pub open spec fn check_trace_report<F: Field>(rows: Seq<Row<F>>) -> Option<Seq<char>> {
    let v = row_views(rows);
    let b = first_row_check_list(v[0]) + last_row_check_list(v.last(), F::p());
    if first_failure(b) is Some {
        Some("boundary constraint `"@ + first_failure(b)->0 + "` failed"@)
    } else if first_transition_failure(v, 0, F::p()) is Some {
        let (name, i) = first_transition_failure(v, 0, F::p())->0;
        Some("transition constraint `"@ + name + "` failed at row "@ + decimal(i as nat))
    } else {
        None
    }
}

/// Every constraint of the list holds.
pub open spec fn all_hold(l: Seq<(Seq<char>, int)>) -> bool {
    forall|k: int| 0 <= k < l.len() ==> (#[trigger] l[k]).1 == 0
}

/// Every boundary and transition constraint holds on the trace.
pub open spec fn air_holds<F: Field>(rows: Seq<Row<F>>) -> bool {
    let v = row_views(rows);
    &&& all_hold(first_row_check_list(v[0]) + last_row_check_list(v.last(), F::p()))
    &&& forall|i: int| 0 <= i < v.len() - 1 ==> all_hold(#[trigger] transition_check_list(v[i], v[i + 1], F::p()))
}

/// A list has no failure exactly when every check in it holds.
pub proof fn lemma_first_failure(l: Seq<(Seq<char>, int)>)
    ensures
        first_failure(l) is None <==> all_hold(l),
    decreases l.len(),
{
    if l.len() > 0 {
        lemma_first_failure(l.drop_first());
        if l[0].1 == 0 {
            assert forall|k: int| 0 <= k < l.len() && all_hold(l.drop_first()) implies (#[trigger] l[k]).1 == 0 by {
                if k > 0 {
                    assert(l[k] == l.drop_first()[k - 1]);
                }
            }
            assert forall|k: int| 0 <= k < l.len() - 1 && all_hold(l) implies (#[trigger] l.drop_first()[k]).1 == 0 by {
                assert(l.drop_first()[k] == l[k + 1]);
            }
        }
    }
}

/// The first-row constraints hold exactly when the row is the reset state:
/// pc zero and every register zero.
pub proof fn lemma_first_row_checks_mean_reset(row: RowView)
    ensures
        all_hold(first_row_check_list(row)) <==> (row.pc == 0 && forall|r: int|
            0 <= r < NUM_REGISTERS ==> #[trigger] row.registers[r] == 0),
{
    let l = first_row_check_list(row);
    if all_hold(l) {
        assert(l[0].1 == row.pc);
        assert forall|r: int| 0 <= r < NUM_REGISTERS implies #[trigger] row.registers[r] == 0 by {
            assert(l[r + 1].1 == row.registers[r]);
        }
    }
    if row.pc == 0 && forall|r: int| 0 <= r < NUM_REGISTERS ==> #[trigger] row.registers[r] == 0 {
        assert forall|k: int| 0 <= k < l.len() implies (#[trigger] l[k]).1 == 0 by {
            if k > 0 {
                assert(l[k].1 == row.registers[k - 1]);
            }
        }
    }
}

/// A non-empty trace that the AIR accepts (as `check_trace` decides) starts
/// from the reset state: the first row's pc and every register are zero.
pub proof fn lemma_accepted_trace_starts_at_reset<F: Field>(rows: Seq<Row<F>>)
    requires
        rows.len() > 0,
        air_holds(rows),
    ensures
        rows[0]@.pc == 0,
        forall|r: int| 0 <= r < NUM_REGISTERS ==> #[trigger] rows[0]@.registers[r] == 0,
{
    let v = row_views(rows);
    let f = first_row_check_list(v[0]);
    let b = f + last_row_check_list(v.last(), F::p());
    assert(v[0] == rows[0]@);
    assert forall|k: int| 0 <= k < f.len() implies (#[trigger] f[k]).1 == 0 by {
        assert(b[k] == f[k]);
    }
    lemma_first_row_checks_mean_reset(v[0]);
}

/// Scanning the rows from `i` finds no failure exactly when every later
/// transition holds.
proof fn lemma_first_transition_failure(rows: Seq<RowView>, i: int, p: int)
    requires
        0 <= i,
    ensures
        first_transition_failure(rows, i, p) is None <==> forall|j: int|
            i <= j < rows.len() - 1 ==> all_hold(#[trigger] transition_check_list(rows[j], rows[j + 1], p)),
    decreases rows.len() - i,
{
    if i + 1 < rows.len() {
        lemma_first_failure(transition_check_list(rows[i], rows[i + 1], p));
        lemma_first_transition_failure(rows, i + 1, p);
    }
}

/// Checks every boundary constraint, then every transition constraint, and
/// reports the first one that fails.
pub fn check_trace<F: Field>(rows: &[Row<F>]) -> (r: Result<(), String>)
    requires
        rows@.len() > 0,
    ensures
        r is Ok <==> air_holds(rows@),
        match r {
            Ok(()) => check_trace_report(rows@) is None,
            Err(e) => check_trace_report(rows@) == Some(e@),
        },
{
    let ghost v = row_views(rows@);
    proof {
        assert(v[0] == rows@[0]@);
        assert(v.last() == rows@.last()@);
    }
    let b = boundary_checks(rows);
    let ghost bl = check_views(b@);
    proof {
        assert(bl.subrange(0, bl.len() as int) =~= bl);
        assert(bl == first_row_check_list(v[0]) + last_row_check_list(v.last(), F::p()));
    }
    let mut k: usize = 0;
    while k < b.len()
        invariant
            k <= b@.len(),
            bl == check_views(b@),
            bl == first_row_check_list(v[0]) + last_row_check_list(v.last(), F::p()),
            v == row_views(rows@),
            first_failure(bl) == first_failure(bl.subrange(k as int, bl.len() as int)),
        decreases b.len() - k,
    {
        let ghost rest = bl.subrange(k as int, bl.len() as int);
        proof {
            assert(rest[0] == check_view(b@[k as int]));
            assert(rest.drop_first() =~= bl.subrange(k + 1, bl.len() as int));
        }
        if !b[k].holds() {
            let mut s = String::from_str("boundary constraint `");
            s.append(b[k].name);
            s.append("` failed");
            proof {
                assert(first_failure(rest) == Some(b@[k as int].name@));
                lemma_first_failure(bl);
                assert(s@ =~= "boundary constraint `"@ + first_failure(bl)->0 + "` failed"@);
            }
            return Err(s);
        }
        k = k + 1;
    }
    proof {
        assert(bl.subrange(bl.len() as int, bl.len() as int) =~= Seq::<(Seq<char>, int)>::empty());
        lemma_first_failure(bl);
    }
    let n = rows.len();
    let mut i: usize = 0;
    while i + 1 < n
        invariant
            n == rows@.len(),
            n > 0,
            i + 1 <= n,
            v == row_views(rows@),
            first_failure(bl) is None,
            all_hold(bl),
            bl == first_row_check_list(v[0]) + last_row_check_list(v.last(), F::p()),
            first_transition_failure(v, 0, F::p()) == first_transition_failure(v, i as int, F::p()),
        decreases n - i,
    {
        let t = transition_checks(&rows[i], &rows[i + 1]);
        let ghost tl = check_views(t@);
        proof {
            assert(v[i as int] == rows@[i as int]@);
            assert(v[i + 1] == rows@[i + 1]@);
            assert(tl == transition_check_list(v[i as int], v[i + 1], F::p()));
            assert(tl.subrange(0, tl.len() as int) =~= tl);
        }
        let mut k: usize = 0;
        while k < t.len()
            invariant
                k <= t@.len(),
                i + 1 < n,
                n == rows@.len(),
                tl == check_views(t@),
                tl == transition_check_list(v[i as int], v[i + 1], F::p()),
                v == row_views(rows@),
                first_failure(bl) is None,
                bl == first_row_check_list(v[0]) + last_row_check_list(v.last(), F::p()),
                first_transition_failure(v, 0, F::p()) == first_transition_failure(v, i as int, F::p()),
                first_failure(tl) == first_failure(tl.subrange(k as int, tl.len() as int)),
            decreases t.len() - k,
        {
            let ghost rest = tl.subrange(k as int, tl.len() as int);
            proof {
                assert(rest[0] == check_view(t@[k as int]));
                assert(rest.drop_first() =~= tl.subrange(k + 1, tl.len() as int));
            }
            if !t[k].holds() {
                let mut s = String::from_str("transition constraint `");
                s.append(t[k].name);
                s.append("` failed at row ");
                push_decimal(&mut s, i as u64);
                proof {
                    assert(first_failure(rest) == Some(t@[k as int].name@));
                    lemma_first_failure(bl);
                    assert(s@ =~= "transition constraint `"@ + first_failure(tl)->0 + "` failed at row "@
                        + decimal(i as nat));
                    lemma_first_transition_failure(v, 0, F::p());
                    assert(first_transition_failure(v, i as int, F::p()) == Some((first_failure(tl)->0, i as int)));
                    assert(first_transition_failure(v, 0, F::p()) is Some);
                }
                return Err(s);
            }
            k = k + 1;
        }
        proof {
            assert(tl.subrange(tl.len() as int, tl.len() as int) =~= Seq::<(Seq<char>, int)>::empty());
            assert(first_failure(tl) is None);
        }
        i = i + 1;
    }
    proof {
        lemma_first_transition_failure(v, 0, F::p());
        lemma_first_transition_failure(v, i as int, F::p());
    }
    Ok(())
}

} // verus!
