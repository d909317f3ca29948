//! Completeness of the CPU's AIR: the rows built from an honest run
//! satisfy every boundary and transition constraint.

use vstd::prelude::*;
use crate::field::{Field, vals, fa, fs, fm, inverses_correct};
use crate::opcodes::{Instruction, NUM_REGISTERS, MEMORY_SIZE, NUM_OPCODES, instruction_valid, opcode_of};
use crate::cpu::{CpuView, AccessView, exec_step, run_step_ok};
use crate::trace::{ExecutionTrace, state_at, access_at, program_valid, cycle_runs, run_stays_in_bounds, rows_describe_run, initial_state};
use crate::air_for_isa::{Row, RowView, unit, dot, row_of, write_index, read_a_index, read_b_index, addr_operand, imm_operand, access_value, lemma_dot_unit};
use crate::constraints::{transition_check_list, first_row_check_list, last_row_check_list, all_hold, air_holds, row_views, field_sum, bool_checks, one_hot_checks, register_checks, write_value_of, writes_register_of, expected_pc_of};

verus! {

/// Every value of the sequence is a canonical field element.
pub open spec fn canonical(s: Seq<int>, p: int) -> bool {
    forall|k: int| 0 <= k < s.len() ==> 0 <= #[trigger] s[k] < p
}

/// The CPU state has its registers and memory, with canonical values.
pub open spec fn state_canonical(s: CpuView, p: int) -> bool {
    &&& s.registers.len() == NUM_REGISTERS
    &&& s.memory.len() == MEMORY_SIZE
    &&& canonical(s.registers, p)
    &&& canonical(s.memory, p)
    &&& s.pc >= 0
}

/// Every cycle before `n` stays inside the program with valid operands.
pub open spec fn runs_in_bounds<F: Field>(program: Seq<Instruction<F>>, init: CpuView, n: nat) -> bool {
    forall|c: nat| c < n ==> {
        let s = #[trigger] state_at(program, init, c);
        s.pc < program.len() && run_step_ok(s, program[s.pc], program.len() as int)
    }
}

/// Each step keeps the state canonical.
proof fn lemma_step_canonical<F: Field>(s: CpuView, i: Instruction<F>)
    requires
        state_canonical(s, F::p()),
        instruction_valid(i),
        F::p() > 1,
    ensures
        state_canonical(exec_step(s, i).0, F::p()),
{
    let p = F::p();
    let s2 = exec_step(s, i).0;
    match i {
        Instruction::LoadImm { reg, imm } => {
            F::lemma_val_range(imm);
        },
        Instruction::Add { dst, a, b } => {
            vstd::arithmetic::div_mod::lemma_mod_bound(s.registers[a as int] + s.registers[b as int], p);
        },
        Instruction::Mul { dst, a, b } => {
            vstd::arithmetic::div_mod::lemma_mod_bound(s.registers[a as int] * s.registers[b as int], p);
        },
        _ => {},
    }
    assert(canonical(s2.registers, p));
    assert(canonical(s2.memory, p));
}

/// Every state of an in-bounds run is canonical.
proof fn lemma_states_canonical<F: Field>(program: Seq<Instruction<F>>, init: CpuView, n: nat, c: nat)
    requires
        state_canonical(init, F::p()),
        program_valid(program),
        runs_in_bounds(program, init, n),
        c <= n,
        F::p() > 1,
    ensures
        state_canonical(state_at(program, init, c), F::p()),
    decreases c,
{
    if c > 0 {
        lemma_states_canonical(program, init, n, (c - 1) as nat);
        let s = state_at(program, init, (c - 1) as nat);
        assert(s.pc < program.len());
        lemma_step_canonical(s, program[s.pc]);
    }
}

/// A halted state sits on a `Halt`, and nothing halts a run but a `Halt`.
proof fn lemma_halted_on_halt<F: Field>(program: Seq<Instruction<F>>, init: CpuView, n: nat, c: nat)
    requires
        !init.halted,
        runs_in_bounds(program, init, n),
        c < n,
    ensures
        state_at(program, init, c).halted ==> program[state_at(program, init, c).pc] == Instruction::<F>::Halt,
    decreases c,
{
    if c > 0 {
        lemma_halted_on_halt(program, init, n, (c - 1) as nat);
        let s = state_at(program, init, (c - 1) as nat);
        assert(s.pc < program.len());
    }
}


/// A list holds when both of its parts hold.
proof fn lemma_all_hold_concat(a: Seq<(Seq<char>, int)>, b: Seq<(Seq<char>, int)>)
    requires
        all_hold(a),
        all_hold(b),
    ensures
        all_hold(a + b),
{
    assert forall|k: int| 0 <= k < (a + b).len() implies (#[trigger] (a + b)[k]).1 == 0 by {
        if k < a.len() {
            assert((a + b)[k] == a[k]);
        } else {
            assert((a + b)[k] == b[k - a.len()]);
        }
    }
}

/// The entries of a unit vector, summed in the field.
proof fn lemma_unit_prefix_sum(k: int, n: nat, m: nat, p: int)
    requires
        0 <= k < n,
        m <= n,
        p > 1,
    ensures
        field_sum(unit(k, n), m, p) == if k < m { 1int } else { 0int },
    decreases m,
{
    if m > 0 {
        lemma_unit_prefix_sum(k, n, (m - 1) as nat, p);
        let prev = field_sum(unit(k, n), (m - 1) as nat, p);
        vstd::arithmetic::div_mod::lemma_small_mod(0, p as nat);
        vstd::arithmetic::div_mod::lemma_small_mod(1, p as nat);
        assert(unit(k, n)[m - 1] == if k == m - 1 { 1int } else { 0int });
    } else {
    }
}

/// A unit vector passes its one-hot checks.
proof fn lemma_one_hot_holds(k: int, n: nat, sum_name: Seq<char>, bool_name: Seq<char>, p: int)
    requires
        0 <= k < n,
        p > 1,
    ensures
        all_hold(one_hot_checks(unit(k, n), sum_name, bool_name, p)),
        all_hold(bool_checks(unit(k, n), bool_name, p)),
        all_hold(seq![(sum_name, fs(field_sum(unit(k, n), n, p), 1, p))]),
{
    lemma_unit_prefix_sum(k, n, n, p);
    vstd::arithmetic::div_mod::lemma_small_mod(0, p as nat);
    vstd::arithmetic::div_mod::lemma_small_mod(1, p as nat);
    let u = unit(k, n);
    assert forall|j: int| 0 <= j < bool_checks(u, bool_name, p).len() implies (#[trigger] bool_checks(u, bool_name, p)[j]).1 == 0 by {
        if j == k {
            assert(u[j] == 1);
        } else {
            assert(u[j] == 0);
        }
    }
    lemma_all_hold_concat(seq![(sum_name, fs(field_sum(u, n, p), 1, p))], bool_checks(u, bool_name, p));
}


/// The AIR row of the cycle that runs `i` in state `s` with memory traffic `acc`.
pub open spec fn honest_row<F: Field>(s: CpuView, i: Instruction<F>, acc: AccessView) -> RowView {
    let p = F::p();
    let regs = s.registers;
    let read_a = dot(unit(read_a_index(i), NUM_REGISTERS as nat), regs, NUM_REGISTERS as nat, p);
    RowView {
        pc: s.pc % p,
        registers: regs,
        sel: unit(opcode_of(i) as int, NUM_OPCODES as nat),
        is_write_r: unit(write_index(i), NUM_REGISTERS as nat),
        is_read_a_r: unit(read_a_index(i), NUM_REGISTERS as nat),
        is_read_b_r: unit(read_b_index(i), NUM_REGISTERS as nat),
        addr: addr_operand(i) % p,
        imm: imm_operand(i),
        mem_read_value: access_value(acc.read),
        mem_write_value: access_value(acc.write),
        jnz_is_zero: if read_a == 0 { 1 } else { 0 },
        jnz_inv: if read_a == 0 { 0 } else { F::inv_val(read_a) },
    }
}

/// Adding `(v - c)` to `c`, in the field, gives `v`.
pub(crate) proof fn lemma_replace(c: int, v: int, p: int)
    requires
        0 <= c < p,
        0 <= v < p,
        p > 1,
    ensures
        fa(c, fm(fm(1, 1, p), fs(v, c, p), p), p) == v,
{
    vstd::arithmetic::div_mod::lemma_small_mod(1, p as nat);
    let d = fs(v, c, p);
    assert(fm(1, 1, p) == 1);
    vstd::arithmetic::div_mod::lemma_mod_bound(v - c, p);
    vstd::arithmetic::div_mod::lemma_small_mod(d as nat, p as nat);
    assert(fm(1, d, p) == d);
    vstd::arithmetic::div_mod::lemma_add_mod_noop_right(c, v - c, p);
    assert((c + d) % p == (c + (v - c)) % p);
    vstd::arithmetic::div_mod::lemma_small_mod(v as nat, p as nat);
    assert(c + (v - c) == v);
}

/// Adding a product with a zero factor leaves `c`.
pub(crate) proof fn lemma_keep(c: int, w: int, x: int, y: int, p: int)
    requires
        0 <= c < p,
        w == 0 || x == 0,
        p > 1,
    ensures
        fa(c, fm(fm(w, x, p), y, p), p) == c,
        fs(c, c, p) == 0,
{
    vstd::arithmetic::div_mod::lemma_small_mod(0, p as nat);
    vstd::arithmetic::div_mod::lemma_small_mod(c as nat, p as nat);
    assert(w * x == 0) by (nonlinear_arith)
        requires w == 0 || x == 0;
}

/// Every register transition constraint holds on an honest step.
proof fn lemma_register_checks_hold<F: Field>(
    s: CpuView,
    i: Instruction<F>,
    acc: AccessView,
    s2: CpuView,
    i2: Instruction<F>,
    acc2: AccessView,
)
    requires
        state_canonical(s, F::p()),
        instruction_valid(i),
        (s2, acc) == exec_step(s, i),
    ensures
        all_hold(register_checks(honest_row(s, i, acc), honest_row(s2, i2, acc2), F::p())),
{
    F::lemma_modulus();
    let p = F::p();
    let cur = honest_row(s, i, acc);
    let next = honest_row(s2, i2, acc2);
    let w = writes_register_of(cur, p);
    let v = write_value_of(cur, p);
    let regs = s.registers;
    vstd::arithmetic::div_mod::lemma_small_mod(0, p as nat);
    vstd::arithmetic::div_mod::lemma_small_mod(1, p as nat);
    lemma_dot_unit::<F>(read_a_index(i), regs, NUM_REGISTERS as nat);
    lemma_dot_unit::<F>(read_b_index(i), regs, NUM_REGISTERS as nat);
    let ra = regs[read_a_index(i)];
    let rb = regs[read_b_index(i)];
    assert(cur.sel == unit(opcode_of(i) as int, 8));
    let x0 = fm(cur.sel[0], cur.imm, p);
    let x1 = fm(cur.sel[1], cur.mem_read_value, p);
    let x3 = fm(cur.sel[3], fa(ra, rb, p), p);
    let x4 = fm(cur.sel[4], fm(ra, rb, p), p);
    assert(v == fa(fa(fa(x0, x1, p), x3, p), x4, p));
    match i {
        Instruction::LoadImm { reg, imm } => {
            F::lemma_val_range(imm);
            vstd::arithmetic::div_mod::lemma_small_mod(imm.val() as nat, p as nat);
            assert(cur.sel[0] == 1 && cur.sel[1] == 0 && cur.sel[3] == 0 && cur.sel[4] == 0);
            assert(x0 == imm.val());
            assert(x1 == 0 && x3 == 0 && x4 == 0);
            assert(w == 1);
            assert(v == imm.val());
        },
        Instruction::Load { reg, addr } => {
            let m = s.memory[addr as int];
            vstd::arithmetic::div_mod::lemma_small_mod(m as nat, p as nat);
            assert(cur.sel[0] == 0 && cur.sel[1] == 1 && cur.sel[3] == 0 && cur.sel[4] == 0);
            assert(cur.mem_read_value == m);
            assert(x1 == m);
            assert(x0 == 0 && x3 == 0 && x4 == 0);
            assert(w == 1);
            assert(v == m);
        },
        Instruction::Add { dst, a, b } => {
            vstd::arithmetic::div_mod::lemma_mod_bound(ra + rb, p);
            vstd::arithmetic::div_mod::lemma_small_mod(((ra + rb) % p) as nat, p as nat);
            assert(w == 1);
            assert(v == (ra + rb) % p);
        },
        Instruction::Mul { dst, a, b } => {
            vstd::arithmetic::div_mod::lemma_mod_bound(ra * rb, p);
            vstd::arithmetic::div_mod::lemma_small_mod(((ra * rb) % p) as nat, p as nat);
            assert(w == 1);
            assert(v == (ra * rb) % p);
        },
        _ => {
            assert(w == 0);
            assert(s2.registers == s.registers);
        },
    }
    let checks = register_checks(cur, next, p);
    assert forall|r: int| 0 <= r < checks.len() implies (#[trigger] checks[r]).1 == 0 by {
        let c = regs[r];
        let wr = write_index(i);
        if w == 1 && r == wr {
            assert(cur.is_write_r[r] == 1);
            lemma_replace(c, v, p);
            assert(s2.registers[r] == v);
        } else if w == 1 {
            assert(cur.is_write_r[r] == 0);
            lemma_keep(c, w, 0, fs(v, c, p), p);
            assert(s2.registers[r] == c);
        } else {
            lemma_keep(c, 0, cur.is_write_r[r], fs(v, c, p), p);
        }
    }
}


/// Small facts of field arithmetic on canonical values.
proof fn lemma_small_arith(x: int, p: int)
    requires
        0 <= x < p,
        p > 1,
    ensures
        fm(0, x, p) == 0,
        fm(x, 0, p) == 0,
        fm(1, x, p) == x,
        fm(x, 1, p) == x,
        fa(x, 0, p) == x,
        fa(0, x, p) == x,
        fs(x, 0, p) == x,
        fs(x, x, p) == 0,
        fs(1, 1, p) == 0,
        fs(1, 0, p) == 1,
        fs(0, 0, p) == 0,
{
    vstd::arithmetic::div_mod::lemma_small_mod(0, p as nat);
    vstd::arithmetic::div_mod::lemma_small_mod(1, p as nat);
    vstd::arithmetic::div_mod::lemma_small_mod(x as nat, p as nat);
}

/// The program counter the AIR expects after an honest step is the one the
/// CPU reaches, reduced into the field.
proof fn lemma_pc_check_holds<F: Field>(s: CpuView, i: Instruction<F>, acc: AccessView)
    requires
        state_canonical(s, F::p()),
        instruction_valid(i),
        acc == exec_step(s, i).1,
    ensures
        expected_pc_of(honest_row(s, i, acc), F::p()) == exec_step(s, i).0.pc % F::p(),
{
    F::lemma_modulus();
    let p = F::p();
    let cur = honest_row(s, i, acc);
    let pc = cur.pc;
    vstd::arithmetic::div_mod::lemma_mod_bound(s.pc, p);
    vstd::arithmetic::div_mod::lemma_mod_bound(addr_operand(i), p);
    lemma_small_arith(pc, p);
    lemma_small_arith(cur.addr, p);
    lemma_small_arith(0, p);
    lemma_small_arith(1, p);
    vstd::arithmetic::div_mod::lemma_add_mod_noop(s.pc, 1, p);
    let pc1 = fa(pc, 1, p);
    vstd::arithmetic::div_mod::lemma_mod_bound(pc + 1, p);
    lemma_small_arith(pc1, p);
    assert(pc1 == (s.pc + 1) % p);
    lemma_dot_unit::<F>(read_a_index(i), s.registers, NUM_REGISTERS as nat);
    let ra = s.registers[read_a_index(i)];
    match i {
        Instruction::Jmp { target } => {
            assert(cur.sel[5] == 1 && cur.sel[6] == 0 && cur.sel[7] == 0);
        },
        Instruction::Jnz { reg, target } => {
            assert(cur.sel[5] == 0 && cur.sel[6] == 1 && cur.sel[7] == 0);
            if ra == 0 {
                assert(cur.jnz_is_zero == 1);
            } else {
                assert(cur.jnz_is_zero == 0);
            }
        },
        Instruction::Halt => {
            assert(cur.sel[5] == 0 && cur.sel[6] == 0 && cur.sel[7] == 1);
            vstd::arithmetic::div_mod::lemma_mod_twice(s.pc, p);
        },
        _ => {
            assert(cur.sel[5] == 0 && cur.sel[6] == 0 && cur.sel[7] == 0);
        },
    }
}

/// The store, is-zero, program-counter and halt constraints hold on an
/// honest step.
proof fn lemma_tail_checks_hold<F: Field>(
    s: CpuView,
    i: Instruction<F>,
    acc: AccessView,
    s2: CpuView,
    i2: Instruction<F>,
    acc2: AccessView,
)
    requires
        state_canonical(s, F::p()),
        instruction_valid(i),
        (s2, acc) == exec_step(s, i),
        i == Instruction::<F>::Halt ==> i2 == Instruction::<F>::Halt,
    ensures
        ({
            let p = F::p();
            let cur = honest_row(s, i, acc);
            let next = honest_row(s2, i2, acc2);
            let ra = dot(cur.is_read_a_r, cur.registers, NUM_REGISTERS as nat, p);
            all_hold(seq![
                ("store_writes_the_read_register"@, fm(cur.sel[2], fs(cur.mem_write_value, ra, p), p)),
                ("is_zero_kills_nonzero_witness"@, fm(ra, cur.jnz_is_zero, p)),
                ("is_zero_inverse_consistency"@, fs(fm(ra, cur.jnz_inv, p), fs(1, cur.jnz_is_zero, p), p)),
                ("pc_transition"@, fs(next.pc, expected_pc_of(cur, p), p)),
                ("halt_is_sticky"@, fm(cur.sel[7], fs(1, next.sel[7], p), p)),
            ])
        }),
{
    F::lemma_prime_field();
    F::lemma_modulus();
    let p = F::p();
    let cur = honest_row(s, i, acc);
    let next = honest_row(s2, i2, acc2);
    lemma_dot_unit::<F>(read_a_index(i), s.registers, NUM_REGISTERS as nat);
    let ra = s.registers[read_a_index(i)];
    lemma_small_arith(ra, p);
    lemma_small_arith(0, p);
    lemma_small_arith(1, p);
    if i is Store {
        assert(cur.sel[2] == 1);
        assert(cur.mem_write_value == ra);
    } else {
        assert(cur.sel[2] == 0);
        vstd::arithmetic::div_mod::lemma_mod_bound(cur.mem_write_value - ra, p);
        lemma_small_arith(fs(cur.mem_write_value, ra, p), p);
    }
    if ra == 0 {
        assert(cur.jnz_inv == 0 && cur.jnz_is_zero == 1);
    } else {
        assert(cur.jnz_is_zero == 0);
        assert(fm(ra, F::inv_val(ra), p) == 1);
    }
    lemma_pc_check_holds(s, i, acc);
    vstd::arithmetic::div_mod::lemma_mod_bound(s2.pc, p);
    lemma_small_arith(next.pc, p);
    if i is Halt {
        assert(cur.sel[7] == 1);
        assert(next.sel[7] == 1);
    } else {
        assert(cur.sel[7] == 0);
        vstd::arithmetic::div_mod::lemma_mod_bound(1 - next.sel[7], p);
        lemma_small_arith(fs(1, next.sel[7], p), p);
    }
}


/// Every transition constraint holds between the rows of an honest step.
proof fn lemma_transition_holds<F: Field>(
    s: CpuView,
    i: Instruction<F>,
    acc: AccessView,
    s2: CpuView,
    i2: Instruction<F>,
    acc2: AccessView,
)
    requires
        state_canonical(s, F::p()),
        instruction_valid(i),
        (s2, acc) == exec_step(s, i),
        i == Instruction::<F>::Halt ==> i2 == Instruction::<F>::Halt,
    ensures
        all_hold(transition_check_list(honest_row(s, i, acc), honest_row(s2, i2, acc2), F::p())),
{
    F::lemma_prime_field();
    F::lemma_modulus();
    let p = F::p();
    let cur = honest_row(s, i, acc);
    let next = honest_row(s2, i2, acc2);
    let ra = dot(cur.is_read_a_r, cur.registers, NUM_REGISTERS as nat, p);
    lemma_one_hot_holds(opcode_of(i) as int, NUM_OPCODES as nat, "opcode_selector_sums_to_one"@, "opcode_selector_is_boolean"@, p);
    lemma_one_hot_holds(write_index(i), NUM_REGISTERS as nat, "write_index_sums_to_one"@, "write_index_is_boolean"@, p);
    lemma_one_hot_holds(read_a_index(i), NUM_REGISTERS as nat, "read_a_index_sums_to_one"@, "read_a_index_is_boolean"@, p);
    lemma_one_hot_holds(read_b_index(i), NUM_REGISTERS as nat, "read_b_index_sums_to_one"@, "read_b_index_is_boolean"@, p);
    lemma_register_checks_hold(s, i, acc, s2, i2, acc2);
    lemma_tail_checks_hold(s, i, acc, s2, i2, acc2);
    let a0 = seq![("opcode_selector_sums_to_one"@, fs(field_sum(cur.sel, NUM_OPCODES as nat, p), 1, p))];
    let a1 = bool_checks(cur.sel, "opcode_selector_is_boolean"@, p);
    let a2 = one_hot_checks(cur.is_write_r, "write_index_sums_to_one"@, "write_index_is_boolean"@, p);
    let a3 = one_hot_checks(cur.is_read_a_r, "read_a_index_sums_to_one"@, "read_a_index_is_boolean"@, p);
    let a4 = one_hot_checks(cur.is_read_b_r, "read_b_index_sums_to_one"@, "read_b_index_is_boolean"@, p);
    let a5 = register_checks(cur, next, p);
    let a6 = seq![
        ("store_writes_the_read_register"@, fm(cur.sel[2], fs(cur.mem_write_value, ra, p), p)),
        ("is_zero_kills_nonzero_witness"@, fm(ra, cur.jnz_is_zero, p)),
        ("is_zero_inverse_consistency"@, fs(fm(ra, cur.jnz_inv, p), fs(1, cur.jnz_is_zero, p), p)),
        ("pc_transition"@, fs(next.pc, expected_pc_of(cur, p), p)),
        ("halt_is_sticky"@, fm(cur.sel[7], fs(1, next.sel[7], p), p)),
    ];
    lemma_all_hold_concat(a0, a1);
    lemma_all_hold_concat(a0 + a1, a2);
    lemma_all_hold_concat(a0 + a1 + a2, a3);
    lemma_all_hold_concat(a0 + a1 + a2 + a3, a4);
    lemma_all_hold_concat(a0 + a1 + a2 + a3 + a4, a5);
    lemma_all_hold_concat(a0 + a1 + a2 + a3 + a4 + a5, a6);
    assert(transition_check_list(cur, next, p) == a0 + a1 + a2 + a3 + a4 + a5 + a6);
}


/// Completeness of the AIR: the rows built from the padded run of a valid
/// program that stays inside its bounds and halts within `n` cycles
/// satisfy every boundary and every transition constraint, in a field
/// where every nonzero element times its inverse is one.
pub proof fn lemma_honest_run_satisfies_air<F: Field>(
    program: Seq<Instruction<F>>,
    mem: Seq<F>,
    n: nat,
    t: ExecutionTrace<F>,
    rows: Seq<Row<F>>,
)
    requires
        program_valid(program),
        mem.len() <= MEMORY_SIZE,
        n >= 1,
        run_stays_in_bounds(program, initial_state(vals(mem)), n, true),
        rows_describe_run(t, program, initial_state(vals(mem)), n, true),
        t.rows@.len() == n,
        rows.len() == n,
        forall|c: int| 0 <= c < n ==> (#[trigger] rows[c])@ == row_of(t.rows@[c]),
    ensures
        air_holds(rows),
{
    F::lemma_prime_field();
    F::lemma_modulus();
    let p = F::p();
    let init = initial_state(vals(mem));
    assert(runs_in_bounds(program, init, n)) by {
        assert forall|c: nat| c < n implies {
            let s = #[trigger] state_at(program, init, c);
            s.pc < program.len() && run_step_ok(s, program[s.pc], program.len() as int)
        } by {
            assert(cycle_runs(program, init, c, true));
        }
    }
    assert(state_canonical(init, p)) by {
        assert forall|k: int| 0 <= k < init.memory.len() implies 0 <= #[trigger] init.memory[k] < p by {
            if k < mem.len() {
                F::lemma_val_range(mem[k]);
                assert(vals(mem)[k] == mem[k].val());
            }
        }
    }
    let v = row_views(rows);
    assert forall|c: int| 0 <= c < n implies #[trigger] v[c] == honest_row(
        state_at(program, init, c as nat),
        program[state_at(program, init, c as nat).pc],
        access_at(program, init, c as nat),
    ) by {
        assert(v[c] == rows[c]@);
        let row = t.rows@[c];
        assert(row.memory_access@ == access_at(program, init, c as nat));
    }
    assert forall|i: int| 0 <= i < v.len() - 1 implies all_hold(#[trigger] transition_check_list(v[i], v[i + 1], p)) by {
        let s = state_at(program, init, i as nat);
        lemma_states_canonical(program, init, n, i as nat);
        assert(s.pc < program.len());
        let s2 = state_at(program, init, (i + 1) as nat);
        lemma_transition_holds(
            s,
            program[s.pc],
            access_at(program, init, i as nat),
            s2,
            program[s2.pc],
            access_at(program, init, (i + 1) as nat),
        );
    }
    let first = first_row_check_list(v[0]);
    let last = last_row_check_list(v.last(), p);
    vstd::arithmetic::div_mod::lemma_small_mod(0, p as nat);
    vstd::arithmetic::div_mod::lemma_small_mod(1, p as nat);
    assert(all_hold(first)) by {
        assert forall|k: int| 0 <= k < first.len() implies (#[trigger] first[k]).1 == 0 by {
            if k > 0 {
                assert(v[0].registers == init.registers);
            }
        }
    }
    assert(all_hold(last)) by {
        let sl = state_at(program, init, (n - 1) as nat);
        lemma_halted_on_halt(program, init, n, (n - 1) as nat);
        assert(sl.pc < program.len());
        assert(state_at(program, init, n).halted);
        assert(program[sl.pc] == Instruction::<F>::Halt);
        assert(v.last() == v[n - 1]);
        assert(v.last().sel[7] == 1);
    }
    lemma_all_hold_concat(first, last);
}

} // verus!
