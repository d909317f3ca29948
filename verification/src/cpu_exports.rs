//! The data behind the CPU views of the visualizer: the demo program, its
//! execution trace and its AIR rows with every transition check, as plain
//! numbers and strings.

use vstd::prelude::*;
use vstd::string::StringExecFns;
use crate::field::{Field, vals};
use crate::toyfield::ToyField;
use crate::opcodes::{Instruction, NUM_REGISTERS, mnemonic_of, text_of};
use crate::trace::{ExecutionTrace, TraceRow, run_padded, rows_describe_run, run_stays_in_bounds, initial_state, program_valid, state_at, cycle_runs};
use crate::cpu::{CpuState, CpuView, exec_step, run_step_ok};
use crate::opcodes::MEMORY_SIZE;
use crate::air_for_isa::{Row, RowView, build_rows, row_of};
use crate::constraints::{transition_checks, transition_check_list, check_views};

verus! {

/// An instruction as text.
pub struct InstructionJson {
    pub mnemonic: String,
    pub text: String,
}

/// One row of the execution trace as plain numbers.
pub struct TraceRowJson {
    pub cycle: usize,
    pub pc: usize,
    pub registers: [u64; NUM_REGISTERS],
    pub instruction_index: usize,
    pub mem_read: Option<(usize, u64)>,
    pub mem_write: Option<(usize, u64)>,
}

/// One AIR row as plain numbers, with the values of its transition checks.
pub struct AirRowJson {
    pub cycle: usize,
    pub pc: u64,
    pub registers: [u64; NUM_REGISTERS],
    pub sel: Vec<u64>,
    pub opcode_name: String,
    pub is_write_r: Vec<u64>,
    pub is_read_a_r: Vec<u64>,
    pub is_read_b_r: Vec<u64>,
    pub addr: u64,
    pub imm: u64,
    pub mem_read_value: u64,
    pub mem_write_value: u64,
    pub jnz_is_zero: u64,
    pub jnz_inv: u64,
    pub transition_checks: Vec<(String, u64)>,
}

/// Everything the CPU views show.
pub struct CpuExport {
    pub field_modulus: u64,
    pub program: Vec<InstructionJson>,
    pub trace: Vec<TraceRowJson>,
    pub air_rows: Vec<AirRowJson>,
    pub final_registers: [u64; NUM_REGISTERS],
    pub final_memory: Vec<u64>,
}

/// The name of opcode `i`.
pub open spec fn opcode_name(i: int) -> Seq<char> {
    if i == 0 {
        "loadimm"@
    } else if i == 1 {
        "load"@
    } else if i == 2 {
        "store"@
    } else if i == 3 {
        "add"@
    } else if i == 4 {
        "mul"@
    } else if i == 5 {
        "jmp"@
    } else if i == 6 {
        "jnz"@
    } else {
        "halt"@
    }
}

fn opcode_names() -> (r: [&'static str; 8])
    ensures
        forall|i: int| 0 <= i < 8 ==> #[trigger] r@[i]@ == opcode_name(i),
{
    let r = ["loadimm", "load", "store", "add", "mul", "jmp", "jnz", "halt"];
    proof {
        reveal_strlit("loadimm");
        reveal_strlit("load");
        reveal_strlit("store");
        reveal_strlit("add");
        reveal_strlit("mul");
        reveal_strlit("jmp");
        reveal_strlit("jnz");
        reveal_strlit("halt");
    }
    r
}

/// `p` is the demo program: `r0 = 1; r1 = 3; r2 = 4; r3 = -1`, then while
/// `r2 != 0` multiply `r0` by `r1` and decrement `r2`; halt with `r0 = 81`.
pub open spec fn is_demo_program(p: Seq<Instruction<ToyField>>) -> bool {
    &&& p.len() == 10
    &&& p[0] matches Instruction::LoadImm { reg: 0, imm } && imm.val() == 1
    &&& p[1] matches Instruction::LoadImm { reg: 1, imm } && imm.val() == 3
    &&& p[2] matches Instruction::LoadImm { reg: 2, imm } && imm.val() == 4
    &&& p[3] matches Instruction::LoadImm { reg: 3, imm } && imm.val() == 96
    &&& p[4] == Instruction::<ToyField>::Jnz { reg: 2, target: 6 }
    &&& p[5] == Instruction::<ToyField>::Jmp { target: 9 }
    &&& p[6] == Instruction::<ToyField>::Mul { dst: 0, a: 0, b: 1 }
    &&& p[7] == Instruction::<ToyField>::Add { dst: 2, a: 2, b: 3 }
    &&& p[8] == Instruction::<ToyField>::Jmp { target: 4 }
    &&& p[9] == Instruction::<ToyField>::Halt
}

/// The demo program: `3^4` by repeated multiplication.
pub fn demo_program() -> (r: Vec<Instruction<ToyField>>)
    ensures
        is_demo_program(r@),
        program_valid(r@),
{
    let one = ToyField::from_u64(1);
    let r = vec![
        Instruction::LoadImm { reg: 0, imm: one },
        Instruction::LoadImm { reg: 1, imm: ToyField::from_u64(3) },
        Instruction::LoadImm { reg: 2, imm: ToyField::from_u64(4) },
        Instruction::LoadImm { reg: 3, imm: one.fneg() },
        Instruction::Jnz { reg: 2, target: 6 },
        Instruction::Jmp { target: 9 },
        Instruction::Mul { dst: 0, a: 0, b: 1 },
        Instruction::Add { dst: 2, a: 2, b: 3 },
        Instruction::Jmp { target: 4 },
        Instruction::Halt,
    ];
    proof {
        assert(is_demo_program(r@));
        assert forall|i: int| 0 <= i < r@.len() implies crate::opcodes::instruction_valid(#[trigger] r@[i]) by {}
    }
    r
}

/// Two demo programs do the same at every instruction: the immediates they
/// load have the same values.
proof fn lemma_demo_instruction_same(p: Seq<Instruction<ToyField>>, q: Seq<Instruction<ToyField>>, s: CpuView, i: int)
    requires
        is_demo_program(p),
        is_demo_program(q),
        0 <= i < 10,
    ensures
        exec_step(s, p[i]) == exec_step(s, q[i]),
        run_step_ok(s, p[i], 10) == run_step_ok(s, q[i], 10),
{
    if i < 4 {
        assert(exec_step(s, p[i]).0 =~= exec_step(s, q[i]).0);
    }
}

/// Two demo programs run through the same states as long as the program
/// counter stays inside the program.
proof fn lemma_demo_states_same(p: Seq<Instruction<ToyField>>, q: Seq<Instruction<ToyField>>, init: CpuView, c: nat)
    requires
        is_demo_program(p),
        is_demo_program(q),
        forall|d: nat| d < c ==> 0 <= #[trigger] state_at(q, init, d).pc < 10,
    ensures
        state_at(p, init, c) == state_at(q, init, c),
    decreases c,
{
    if c > 0 {
        lemma_demo_states_same(p, q, init, (c - 1) as nat);
        let s = state_at(q, init, (c - 1) as nat);
        assert(s.pc < 10);
        lemma_demo_instruction_same(p, q, s, s.pc);
    }
}

/// Runs the demo program for `trace_len` cycles and reports whether every
/// cycle stays inside the program with its step defined, and the run ends
/// halted: what `export_cpu` asks of `trace_len`.
pub fn demo_runs_in_bounds(trace_len: usize) -> (ok: bool)
    ensures
        ok == forall|p: Seq<Instruction<ToyField>>| is_demo_program(p) ==> #[trigger] run_stays_in_bounds(
            p,
            initial_state(Seq::<int>::empty()),
            trace_len as nat,
            true,
        ),
{
    let program = demo_program();
    let ghost init = initial_state(Seq::<int>::empty());
    let ghost prog = program@;
    assert(init == initial_state(Seq::<int>::empty()));
    let mut cpu: CpuState<ToyField> = CpuState::new(Vec::new());
    proof {
        assert(cpu@.registers =~= init.registers);
        assert(cpu@.memory =~= init.memory);
        assert(cpu@ == state_at(prog, init, 0));
    }
    let mut c: usize = 0;
    while c < trace_len
        invariant
            c <= trace_len,
            prog == program@,
            init == initial_state(Seq::<int>::empty()),
            is_demo_program(prog),
            program_valid(prog),
            cpu@ == state_at(prog, init, c as nat),
            forall|d: nat| d < c ==> {
                let s = #[trigger] state_at(prog, init, d);
                0 <= s.pc < prog.len() && run_step_ok(s, prog[s.pc], prog.len() as int)
            },
        decreases trace_len - c,
    {
        let pc = cpu.pc;
        if pc >= program.len() {
            proof {
                assert(cycle_runs(prog, init, c as nat, true));
                assert(!run_stays_in_bounds(prog, init, trace_len as nat, true));
                assert(is_demo_program(prog) && !run_stays_in_bounds(
                    prog,
                    initial_state(Seq::<int>::empty()),
                    trace_len as nat,
                    true,
                ));
            }
            return false;
        }
        let instr = program[pc];
        let step_defined = match instr {
            Instruction::Jmp { target } => target < program.len(),
            Instruction::Jnz { reg, target } => cpu.get_reg(reg).is_zero() || target < program.len(),
            Instruction::Load { addr, .. } => addr < cpu.memory.len(),
            Instruction::Store { addr, .. } => addr < cpu.memory.len(),
            _ => true,
        };
        if !step_defined || cpu.memory.len() != MEMORY_SIZE {
            proof {
                assert(cycle_runs(prog, init, c as nat, true));
                assert(!run_step_ok(cpu@, prog[pc as int], prog.len() as int));
                assert(!run_stays_in_bounds(prog, init, trace_len as nat, true));
                assert(is_demo_program(prog) && !run_stays_in_bounds(
                    prog,
                    initial_state(Seq::<int>::empty()),
                    trace_len as nat,
                    true,
                ));
            }
            return false;
        }
        proof {
            assert(crate::opcodes::instruction_valid(prog[pc as int]));
        }
        cpu.step(&instr, program.len());
        c = c + 1;
    }
    let ok = cpu.halted;
    proof {
        if ok {
            assert forall|p: Seq<Instruction<ToyField>>| is_demo_program(p) implies #[trigger] run_stays_in_bounds(
                p,
                init,
                trace_len as nat,
                true,
            ) by {
                assert forall|d: nat| d < trace_len implies 0 <= #[trigger] state_at(prog, init, d).pc < 10 by {
                    assert(state_at(prog, init, d).pc < prog.len());
                }
                assert forall|d: nat| d < trace_len && #[trigger] cycle_runs(p, init, d, true) implies {
                    let s = state_at(p, init, d);
                    s.pc < p.len() && run_step_ok(s, p[s.pc], p.len() as int)
                } by {
                    lemma_demo_states_same(p, prog, init, d);
                    let s = state_at(prog, init, d);
                    assert(s.pc < prog.len() && run_step_ok(s, prog[s.pc], prog.len() as int));
                    lemma_demo_instruction_same(p, prog, s, s.pc);
                }
                lemma_demo_states_same(p, prog, init, trace_len as nat);
            }
        } else {
            assert(!run_stays_in_bounds(prog, init, trace_len as nat, true));
        }
    }
    ok
}

/// A memory access as plain numbers.
pub open spec fn access_json_ok(j: Option<(usize, u64)>, a: Option<(usize, ToyField)>) -> bool {
    match a {
        None => j is None,
        Some((addr, v)) => j == Some((addr, v.val() as u64)),
    }
}

/// `j` is the trace row `row` as plain numbers.
pub open spec fn trace_row_json_ok(j: TraceRowJson, row: TraceRow<ToyField>) -> bool {
    &&& j.cycle == row.cycle
    &&& j.pc == row.pc
    &&& j.instruction_index == row.pc
    &&& forall|k: int| 0 <= k < NUM_REGISTERS ==> #[trigger] j.registers@[k] as int == row.registers@[k].val()
    &&& access_json_ok(j.mem_read, row.memory_access.read)
    &&& access_json_ok(j.mem_write, row.memory_access.write)
}

/// The numbers as integers.
pub open spec fn u64_ints(s: Seq<u64>) -> Seq<int> {
    s.map_values(|x: u64| x as int)
}

/// The index of the first entry equal to one, or zero if there is none.
pub open spec fn first_one(s: Seq<int>) -> int
    decreases s.len(),
{
    if s.len() == 0 {
        0
    } else if s[0] == 1 {
        0
    } else if exists|k: int| 0 <= k < s.len() && s[k] == 1 {
        1 + first_one(s.drop_first())
    } else {
        0
    }
}

/// `j` is AIR row `i`, viewed as `cur`, as plain numbers, with the values
/// of its transition checks against the row `next`.
pub open spec fn air_row_json_ok(j: AirRowJson, i: nat, cur: RowView, next: RowView) -> bool {
    let checks = transition_check_list(cur, next, 97);
    &&& j.cycle == i
    &&& j.pc as int == cur.pc
    &&& u64_ints(j.registers@) == cur.registers
    &&& u64_ints(j.sel@) == cur.sel
    &&& j.opcode_name@ == opcode_name(first_one(cur.sel))
    &&& u64_ints(j.is_write_r@) == cur.is_write_r
    &&& u64_ints(j.is_read_a_r@) == cur.is_read_a_r
    &&& u64_ints(j.is_read_b_r@) == cur.is_read_b_r
    &&& j.addr as int == cur.addr
    &&& j.imm as int == cur.imm
    &&& j.mem_read_value as int == cur.mem_read_value
    &&& j.mem_write_value as int == cur.mem_write_value
    &&& j.jnz_is_zero as int == cur.jnz_is_zero
    &&& j.jnz_inv as int == cur.jnz_inv
    &&& j.transition_checks@.len() == checks.len()
    &&& forall|k: int| 0 <= k < checks.len() ==> (#[trigger] j.transition_checks@[k]).0@ == checks[k].0
        && j.transition_checks@[k].1 as int == checks[k].1
}

/// The row after `c`, or the last row itself.
pub open spec fn next_row_index(c: int, n: int) -> int {
    if c + 1 < n {
        c + 1
    } else {
        n - 1
    }
}

/// The field elements as plain numbers.
pub(crate) fn to_u64s(values: &[ToyField]) -> (r: Vec<u64>)
    ensures
        u64_ints(r@) == vals(values@),
        r@.len() == values@.len(),
        forall|i: int| 0 <= i < values@.len() ==> #[trigger] r@[i] as int == values@[i].val(),
{
    let mut out: Vec<u64> = Vec::with_capacity(values.len());
    let mut i: usize = 0;
    while i < values.len()
        invariant
            i <= values@.len(),
            u64_ints(out@) == vals(values@).subrange(0, i as int),
        decreases values@.len() - i,
    {
        let ghost before = out@;
        let x = values[i].to_canonical_u64();
        out.push(x);
        proof {
            assert(u64_ints(out@) =~= u64_ints(before).push(x as int));
            assert(vals(values@).subrange(0, i + 1) =~= vals(values@).subrange(0, i as int).push(values@[i as int].val()));
        }
        i = i + 1;
    }
    proof {
        assert(vals(values@).subrange(0, values@.len() as int) =~= vals(values@));
        assert(u64_ints(out@).len() == out@.len());
        assert forall|i: int| 0 <= i < values@.len() implies #[trigger] out@[i] as int == values@[i].val() by {
            assert(u64_ints(out@)[i] == vals(values@)[i]);
        }
    }
    out
}

fn to_u64_array(values: &[ToyField; NUM_REGISTERS]) -> (r: [u64; NUM_REGISTERS])
    ensures
        u64_ints(r@) == vals(values@),
{
    let r = [
        values[0].to_canonical_u64(),
        values[1].to_canonical_u64(),
        values[2].to_canonical_u64(),
        values[3].to_canonical_u64(),
        values[4].to_canonical_u64(),
        values[5].to_canonical_u64(),
    ];
    proof {
        assert(u64_ints(r@) =~= vals(values@));
    }
    r
}

fn access_json(a: Option<(usize, ToyField)>) -> (r: Option<(usize, u64)>)
    ensures
        access_json_ok(r, a),
{
    match a {
        Some((addr, v)) => Some((addr, v.to_canonical_u64())),
        None => None,
    }
}

fn trace_row_json(row: &TraceRow<ToyField>) -> (r: TraceRowJson)
    ensures
        trace_row_json_ok(r, *row),
{
    let registers = to_u64_array(&row.registers);
    proof {
        assert forall|k: int| 0 <= k < NUM_REGISTERS implies #[trigger] registers@[k] as int == row.registers@[k].val() by {
            assert(u64_ints(registers@)[k] == vals(row.registers@)[k]);
        }
    }
    TraceRowJson {
        cycle: row.cycle,
        pc: row.pc,
        registers,
        instruction_index: row.pc,
        mem_read: access_json(row.memory_access.read),
        mem_write: access_json(row.memory_access.write),
    }
}

/// The index of the first selector equal to one, or zero.
fn opcode_index_of(sel: &[ToyField; 8]) -> (r: usize)
    ensures
        r == first_one(vals(sel@)),
        r < 8,
{
    let one = ToyField::one();
    let mut i: usize = 0;
    while i < 8
        invariant
            i <= 8,
            one.val() == 1,
            forall|k: int| 0 <= k < i ==> vals(sel@)[k] != 1,
        decreases 8 - i,
    {
        if sel[i].feq(&one) {
            proof {
                lemma_first_one_at(vals(sel@), i as int);
            }
            return i;
        }
        i = i + 1;
    }
    proof {
        lemma_first_one_none(vals(sel@));
    }
    0
}

/// The first one sits at `i` when nothing before it is one.
proof fn lemma_first_one_at(s: Seq<int>, i: int)
    requires
        0 <= i < s.len(),
        s[i] == 1,
        forall|k: int| 0 <= k < i ==> s[k] != 1,
    ensures
        first_one(s) == i,
    decreases i,
{
    if i > 0 {
        assert(s.drop_first()[i - 1] == 1);
        lemma_first_one_at(s.drop_first(), i - 1);
        assert(exists|k: int| 0 <= k < s.len() && s[k] == 1);
    }
}

/// Without a one, the index is zero.
proof fn lemma_first_one_none(s: Seq<int>)
    requires
        forall|k: int| 0 <= k < s.len() ==> s[k] != 1,
    ensures
        first_one(s) == 0,
{
}

fn air_row_json(i: usize, row: &Row<ToyField>, next: &Row<ToyField>, names: &[&'static str; 8]) -> (r: AirRowJson)
    requires
        forall|k: int| 0 <= k < 8 ==> #[trigger] names@[k]@ == opcode_name(k),
    ensures
        air_row_json_ok(r, i as nat, row@, next@),
{
    let checks = transition_checks(row, next);
    let mut pairs: Vec<(String, u64)> = Vec::with_capacity(checks.len());
    let mut k: usize = 0;
    while k < checks.len()
        invariant
            k <= checks@.len(),
            check_views(checks@) == transition_check_list(row@, next@, 97),
            pairs@.len() == k,
            forall|m: int| 0 <= m < k ==> (#[trigger] pairs@[m]).0@ == checks@[m].name@
                && pairs@[m].1 as int == checks@[m].value.val(),
        decreases checks@.len() - k,
    {
        let c = &checks[k];
        pairs.push((String::from_str(c.name), c.value.to_canonical_u64()));
        k = k + 1;
    }
    let opcode_idx = opcode_index_of(&row.sel);
    proof {
        assert forall|m: int| 0 <= m < checks@.len() implies (#[trigger] pairs@[m]).0@ == transition_check_list(row@, next@, 97)[m].0
            && pairs@[m].1 as int == transition_check_list(row@, next@, 97)[m].1 by {
            assert(check_views(checks@)[m] == (checks@[m].name@, checks@[m].value.val()));
        }
    }
    AirRowJson {
        cycle: i,
        pc: row.pc.to_canonical_u64(),
        registers: to_u64_array(&row.registers),
        sel: to_u64s(&row.sel),
        opcode_name: String::from_str(names[opcode_idx]),
        is_write_r: to_u64s(&row.is_write_r),
        is_read_a_r: to_u64s(&row.is_read_a_r),
        is_read_b_r: to_u64s(&row.is_read_b_r),
        addr: row.addr.to_canonical_u64(),
        imm: row.imm.to_canonical_u64(),
        mem_read_value: row.mem_read_value.to_canonical_u64(),
        mem_write_value: row.mem_write_value.to_canonical_u64(),
        jnz_is_zero: row.jnz_is_zero.to_canonical_u64(),
        jnz_inv: row.jnz_inv.to_canonical_u64(),
        transition_checks: pairs,
    }
}

/// The CPU views of the demo program run for `trace_len` cycles: the
/// program's text, the execution trace, the AIR rows with the values of
/// their transition checks (the last row checked against itself), and the
/// final registers and memory.
pub fn export_cpu(trace_len: usize) -> (r: CpuExport)
    requires
        forall|p: Seq<Instruction<ToyField>>| is_demo_program(p) ==> #[trigger] run_stays_in_bounds(
            p,
            initial_state(Seq::empty()),
            trace_len as nat,
            true,
        ),
    ensures
        r.field_modulus == 97,
        r.program@.len() == 10,
        exists|p: Seq<Instruction<ToyField>>, t: ExecutionTrace<ToyField>| {
            &&& is_demo_program(p)
            &&& rows_describe_run(t, p, initial_state(Seq::empty()), trace_len as nat, true)
            &&& forall|i: int| 0 <= i < 10 ==> #[trigger] r.program@[i].mnemonic@ == mnemonic_of(p[i])
                && r.program@[i].text@ == text_of(p[i])
            &&& r.trace@.len() == t.rows@.len()
            &&& forall|c: int| 0 <= c < r.trace@.len() ==> #[trigger] trace_row_json_ok(r.trace@[c], t.rows@[c])
            &&& r.air_rows@.len() == t.rows@.len()
            &&& forall|c: int| 0 <= c < r.air_rows@.len() ==> #[trigger] air_row_json_ok(
                r.air_rows@[c],
                c as nat,
                row_of(t.rows@[c]),
                row_of(t.rows@[next_row_index(c, t.rows@.len() as int)]),
            )
            &&& u64_ints(r.final_registers@) == vals(t.final_registers@)
            &&& u64_ints(r.final_memory@) == vals(t.final_memory@)
        },
{
    let program = demo_program();
    let empty: Vec<ToyField> = Vec::new();
    proof {
        assert(vals(empty@) =~= Seq::<int>::empty());
    }
    proof {
        assert(run_stays_in_bounds(program@, initial_state(Seq::<int>::empty()), trace_len as nat, true));
    }
    let trace = run_padded(program.as_slice(), empty, trace_len);
    proof {
        assert forall|i: int| 0 <= i < trace.rows@.len() implies crate::opcodes::instruction_valid(#[trigger] trace.rows@[i].instruction) by {
            let init = initial_state(Seq::<int>::empty());
            let s = crate::trace::state_at(program@, init, i as nat);
            assert(crate::trace::cycle_runs(program@, init, i as nat, true));
            assert(s.pc < program@.len());
        }
    }
    let rows = build_rows(&trace);
    let mut program_json: Vec<InstructionJson> = Vec::with_capacity(program.len());
    let mut i: usize = 0;
    while i < program.len()
        invariant
            i <= program@.len(),
            program_json@.len() == i,
            forall|j: int| 0 <= j < i ==> #[trigger] program_json@[j].mnemonic@ == mnemonic_of(program@[j])
                && program_json@[j].text@ == text_of(program@[j]),
        decreases program@.len() - i,
    {
        let instr = &program[i];
        program_json.push(InstructionJson { mnemonic: String::from_str(instr.mnemonic()), text: instr.to_text() });
        i = i + 1;
    }
    let n = trace.rows.len();
    let mut trace_json: Vec<TraceRowJson> = Vec::with_capacity(n);
    let mut c: usize = 0;
    while c < n
        invariant
            c <= n,
            n == trace.rows@.len(),
            trace_json@.len() == c,
            forall|j: int| 0 <= j < c ==> #[trigger] trace_row_json_ok(trace_json@[j], trace.rows@[j]),
        decreases n - c,
    {
        trace_json.push(trace_row_json(&trace.rows[c]));
        c = c + 1;
    }
    let names = opcode_names();
    let mut air_rows: Vec<AirRowJson> = Vec::with_capacity(n);
    let mut c: usize = 0;
    while c < n
        invariant
            c <= n,
            n == rows@.len(),
            n == trace.rows@.len(),
            forall|k: int| 0 <= k < 8 ==> #[trigger] names@[k]@ == opcode_name(k),
            forall|j: int| 0 <= j < rows@.len() ==> #[trigger] rows@[j]@ == row_of(trace.rows@[j]),
            air_rows@.len() == c,
            forall|j: int| 0 <= j < c ==> #[trigger] air_row_json_ok(
                air_rows@[j],
                j as nat,
                row_of(trace.rows@[j]),
                row_of(trace.rows@[next_row_index(j, n as int)]),
            ),
        decreases n - c,
    {
        let next_index = if c + 1 < n { c + 1 } else { n - 1 };
        let a = air_row_json(c, &rows[c], &rows[next_index], &names);
        air_rows.push(a);
        c = c + 1;
    }
    let final_registers = to_u64_array(&trace.final_registers);
    let final_memory = to_u64s(trace.final_memory.as_slice());
    let r = CpuExport {
        field_modulus: ToyField::modulus(),
        program: program_json,
        trace: trace_json,
        air_rows,
        final_registers,
        final_memory,
    };
    proof {
        assert(is_demo_program(program@));
    }
    r
}

} // verus!
