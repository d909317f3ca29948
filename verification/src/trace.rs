//! Running a program: the execution trace, one row per cycle, each row
//! recording the state *before* that cycle's instruction executes.

use vstd::prelude::*;
use crate::field::{Field, vals};
use crate::opcodes::{Instruction, MEMORY_SIZE, NUM_REGISTERS, instruction_valid, validate_instruction};
use crate::cpu::{CpuState, CpuView, MemoryAccess, AccessView, exec_step, run_step_ok};
use crate::opcodes::text_of;
use crate::text::{decimal, pad_left, pad_right, pad_left_spec, pad_right_spec};
use vstd::string::{StringExecFns, StrSliceExecFns};

verus! {

/// One cycle of the trace.
#[derive(Debug, Clone, PartialEq, Eq)]
pub struct TraceRow<F: Field> {
    pub cycle: usize,
    pub pc: usize,
    pub registers: [F; NUM_REGISTERS],
    pub instruction: Instruction<F>,
    pub memory_access: MemoryAccess<F>,
}

/// A whole run: the rows, and the state after the last row.
#[derive(Debug, Clone)]
pub struct ExecutionTrace<F: Field> {
    pub rows: Vec<TraceRow<F>>,
    pub final_registers: [F; NUM_REGISTERS],
    pub final_memory: Vec<F>,
    pub halted: bool,
}

/// The state of a fresh CPU whose memory starts with `mem`.
pub open spec fn initial_state(mem: Seq<int>) -> CpuView {
    CpuView {
        pc: 0,
        registers: Seq::new(NUM_REGISTERS as nat, |i: int| 0int),
        memory: Seq::new(MEMORY_SIZE as nat, |i: int| if i < mem.len() { mem[i] } else { 0 }),
        halted: false,
    }
}

/// The state after `c` cycles of running `program` from `init`.
pub open spec fn state_at<F: Field>(program: Seq<Instruction<F>>, init: CpuView, c: nat) -> CpuView
    decreases c,
{
    if c == 0 {
        init
    } else {
        let s = state_at(program, init, (c - 1) as nat);
        exec_step(s, program[s.pc]).0
    }
}

/// The memory traffic of cycle `c`.
pub open spec fn access_at<F: Field>(program: Seq<Instruction<F>>, init: CpuView, c: nat) -> AccessView {
    let s = state_at(program, init, c);
    exec_step(s, program[s.pc]).1
}

/// Every instruction of the program has its operands in range.
pub open spec fn program_valid<F: Field>(program: Seq<Instruction<F>>) -> bool {
    forall|i: int| 0 <= i < program.len() ==> instruction_valid(#[trigger] program[i])
}

/// Cycle `c` executes (the CPU has not halted, or halted cycles are replayed).
pub open spec fn cycle_runs<F: Field>(program: Seq<Instruction<F>>, init: CpuView, c: nat, pad: bool) -> bool {
    pad || !state_at(program, init, c).halted
}

/// The run of `max_cycles` cycles never leaves the program nor jumps out
/// of it, and a padded run ends halted.
pub open spec fn run_stays_in_bounds<F: Field>(
    program: Seq<Instruction<F>>,
    init: CpuView,
    max_cycles: nat,
    pad: bool,
) -> bool {
    &&& forall|c: nat|
        c < max_cycles && #[trigger] cycle_runs(program, init, c, pad) ==> {
            let s = state_at(program, init, c);
            s.pc < program.len() && run_step_ok(s, program[s.pc], program.len() as int)
        }
    &&& pad ==> state_at(program, init, max_cycles).halted
}

/// The number of rows the run produces: all `max_cycles` when padding,
/// otherwise up to the first halted state.
pub open spec fn rows_describe_run<F: Field>(
    t: ExecutionTrace<F>,
    program: Seq<Instruction<F>>,
    init: CpuView,
    max_cycles: nat,
    pad: bool,
) -> bool {
    let n = t.rows@.len();
    &&& n <= max_cycles
    &&& n < max_cycles ==> !pad && state_at(program, init, n).halted
    &&& forall|c: nat| c < n ==> #[trigger] cycle_runs(program, init, c, pad)
    &&& forall|c: int|
        0 <= c < n ==> {
            let row = #[trigger] t.rows@[c];
            let s = state_at(program, init, c as nat);
            &&& row.cycle == c
            &&& row.pc == s.pc
            &&& vals(row.registers@) == s.registers
            &&& row.instruction == program[s.pc]
            &&& row.memory_access@ == access_at(program, init, c as nat)
        }
    &&& vals(t.final_registers@) == state_at(program, init, n).registers
    &&& vals(t.final_memory@) == state_at(program, init, n).memory
    &&& t.halted == state_at(program, init, n).halted
}

fn run_impl<F: Field>(
    program: &[Instruction<F>],
    initial_memory: Vec<F>,
    max_cycles: usize,
    pad_after_halt: bool,
) -> (t: ExecutionTrace<F>)
    requires
        program_valid(program@),
        initial_memory@.len() <= MEMORY_SIZE,
        run_stays_in_bounds(program@, initial_state(vals(initial_memory@)), max_cycles as nat, pad_after_halt),
    ensures
        rows_describe_run(t, program@, initial_state(vals(initial_memory@)), max_cycles as nat, pad_after_halt),
{
    let mut i: usize = 0;
    while i < program.len()
        invariant
            i <= program@.len(),
            program_valid(program@),
        decreases program.len() - i,
    {
        let ok = validate_instruction(&program[i]);
        i = i + 1;
    }

    let ghost init = initial_state(vals(initial_memory@));
    let ghost mem0 = initial_memory@;
    let mut cpu: CpuState<F> = CpuState::new(initial_memory);
    proof {
        assert(cpu@.registers =~= init.registers);
        assert(cpu@.memory =~= init.memory);
    }
    let mut rows: Vec<TraceRow<F>> = Vec::with_capacity(max_cycles);
    let mut cycle: usize = 0;
    while cycle < max_cycles
        invariant_except_break
            cycle <= max_cycles,
            rows@.len() == cycle,
            cpu@ == state_at(program@, init, cycle as nat),
            run_stays_in_bounds(program@, init, max_cycles as nat, pad_after_halt),
            program_valid(program@),
            forall|c: nat| c < cycle ==> #[trigger] cycle_runs(program@, init, c, pad_after_halt),
            forall|c: int|
                0 <= c < cycle ==> {
                    let row = #[trigger] rows@[c];
                    let s = state_at(program@, init, c as nat);
                    &&& row.cycle == c
                    &&& row.pc == s.pc
                    &&& vals(row.registers@) == s.registers
                    &&& row.instruction == program@[s.pc]
                    &&& row.memory_access@ == access_at(program@, init, c as nat)
                },
        ensures
            rows@.len() <= max_cycles,
            rows@.len() < max_cycles ==> !pad_after_halt && state_at(program@, init, rows@.len() as nat).halted,
            cpu@ == state_at(program@, init, rows@.len() as nat),
            forall|c: nat| c < rows@.len() ==> #[trigger] cycle_runs(program@, init, c, pad_after_halt),
            forall|c: int|
                0 <= c < rows@.len() ==> {
                    let row = #[trigger] rows@[c];
                    let s = state_at(program@, init, c as nat);
                    &&& row.cycle == c
                    &&& row.pc == s.pc
                    &&& vals(row.registers@) == s.registers
                    &&& row.instruction == program@[s.pc]
                    &&& row.memory_access@ == access_at(program@, init, c as nat)
                },
        decreases max_cycles - cycle,
    {
        if cpu.halted && !pad_after_halt {
            break;
        }
        proof {
            assert(cycle_runs(program@, init, cycle as nat, pad_after_halt));
        }
        let pc = cpu.pc;
        let instruction = program[pc];
        let registers_before = cpu.registers;
        let memory_access = cpu.step(&instruction, program.len());
        rows.push(TraceRow { cycle, pc, registers: registers_before, instruction, memory_access });
        cycle = cycle + 1;
    }

    ExecutionTrace {
        rows,
        final_registers: cpu.registers,
        final_memory: cpu.memory,
        halted: cpu.halted,
    }
}

/// The padded run agrees with the plain run on every cycle both record:
/// the same cycle number, program counter, registers, instruction and
/// memory traffic.
pub proof fn lemma_padded_run_extends_run<F: Field>(
    plain: ExecutionTrace<F>,
    padded: ExecutionTrace<F>,
    program: Seq<Instruction<F>>,
    init: CpuView,
    max_cycles: nat,
    trace_len: nat,
)
    requires
        rows_describe_run(plain, program, init, max_cycles, false),
        rows_describe_run(padded, program, init, trace_len, true),
    ensures
        forall|c: int|
            0 <= c < plain.rows@.len() && c < padded.rows@.len() ==> {
                let a = #[trigger] plain.rows@[c];
                let b = padded.rows@[c];
                &&& a.cycle == b.cycle
                &&& a.pc == b.pc
                &&& vals(a.registers@) == vals(b.registers@)
                &&& a.instruction == b.instruction
                &&& a.memory_access@ == b.memory_access@
            },
{
    assert forall|c: int| 0 <= c < plain.rows@.len() && c < padded.rows@.len() implies {
        let a = #[trigger] plain.rows@[c];
        let b = padded.rows@[c];
        &&& a.cycle == b.cycle
        &&& a.pc == b.pc
        &&& vals(a.registers@) == vals(b.registers@)
        &&& a.instruction == b.instruction
        &&& a.memory_access@ == b.memory_access@
    } by {
        let b = padded.rows@[c];
        assert(b.cycle == c);
    }
}

/// Runs until the program halts or `max_cycles` cycles have run.
pub fn run<F: Field>(program: &[Instruction<F>], initial_memory: Vec<F>, max_cycles: usize) -> (t: ExecutionTrace<F>)
    requires
        program_valid(program@),
        initial_memory@.len() <= MEMORY_SIZE,
        run_stays_in_bounds(program@, initial_state(vals(initial_memory@)), max_cycles as nat, false),
    ensures
        rows_describe_run(t, program@, initial_state(vals(initial_memory@)), max_cycles as nat, false),
{
    run_impl(program, initial_memory, max_cycles, false)
}

/// Runs exactly `trace_len` cycles; once halted, every further cycle
/// replays the `Halt`.  The program must halt within `trace_len` cycles.
pub fn run_padded<F: Field>(program: &[Instruction<F>], initial_memory: Vec<F>, trace_len: usize) -> (t: ExecutionTrace<F>)
    requires
        program_valid(program@),
        initial_memory@.len() <= MEMORY_SIZE,
        run_stays_in_bounds(program@, initial_state(vals(initial_memory@)), trace_len as nat, true),
    ensures
        rows_describe_run(t, program@, initial_state(vals(initial_memory@)), trace_len as nat, true),
        t.rows@.len() == trace_len,
        t.halted,
{
    run_impl(program, initial_memory, trace_len, true)
}


/// The registers' decimal values, separated by ", ".
pub open spec fn register_list<F: Field>(regs: Seq<F>) -> Seq<char>
    decreases regs.len(),
{
    if regs.len() == 0 {
        Seq::empty()
    } else if regs.len() == 1 {
        decimal(regs[0].val() as nat)
    } else {
        register_list(regs.drop_last()) + ", "@ + decimal(regs.last().val() as nat)
    }
}

/// The header line of the trace table.
pub open spec fn table_header() -> Seq<char> {
    pad_left_spec("cycle"@, 5) + "  "@ + pad_left_spec("pc"@, 3) + "  "@ + pad_right_spec("instruction"@, 28)
        + "  registers\n"@
}

/// One line of the trace table: cycle, pc, instruction, registers.
pub open spec fn table_line<F: Field>(row: TraceRow<F>) -> Seq<char> {
    pad_left_spec(decimal(row.cycle as nat), 5) + "  "@ + pad_left_spec(decimal(row.pc as nat), 3) + "  "@
        + pad_right_spec(text_of(row.instruction), 28) + "  ["@ + register_list(row.registers@) + "]\n"@
}

/// The table lines of the first `n` rows.
pub open spec fn table_lines<F: Field>(rows: Seq<TraceRow<F>>, n: nat) -> Seq<char>
    decreases n,
{
    if n == 0 {
        Seq::empty()
    } else {
        table_lines(rows, (n - 1) as nat) + table_line(rows[n - 1])
    }
}

/// Appends `text` right-aligned in `width` characters.
fn push_left(out: &mut String, text: &str, width: usize)
    ensures
        final(out)@ == old(out)@ + pad_left_spec(text@, width as nat),
{
    let len = text.unicode_len();
    let padded = pad_left(text, len, width);
    out.append(padded.as_str());
}

/// Appends `text` left-aligned in `width` characters.
fn push_right(out: &mut String, text: &str, width: usize)
    ensures
        final(out)@ == old(out)@ + pad_right_spec(text@, width as nat),
{
    let len = text.unicode_len();
    let padded = pad_right(text, len, width);
    out.append(padded.as_str());
}

impl<F: Field> ExecutionTrace<F> {
    /// The trace as a table: one line per cycle with its pc, instruction
    /// and registers, under a header line.
    #[verifier::spinoff_prover]
    pub fn pretty_print(&self) -> (r: String)
        ensures
            r@ == table_header() + table_lines(self.rows@, self.rows@.len()),
    {
        let mut out = String::new();
        push_left(&mut out, "cycle", 5);
        out.append("  ");
        push_left(&mut out, "pc", 3);
        out.append("  ");
        push_right(&mut out, "instruction", 28);
        out.append("  registers\n");
        proof {
            reveal_strlit("cycle");
            reveal_strlit("pc");
            reveal_strlit("instruction");
            reveal_strlit("  ");
            reveal_strlit("  registers\n");
            assert(out@ =~= table_header());
        }
        let mut i: usize = 0;
        while i < self.rows.len()
            invariant
                i <= self.rows@.len(),
                out@ == table_header() + table_lines(self.rows@, i as nat),
            decreases self.rows@.len() - i,
        {
            let row = &self.rows[i];
            let ghost before = out@;
            let cycle = crate::text::to_decimal(row.cycle as u64);
            push_left(&mut out, cycle.as_str(), 5);
            out.append("  ");
            let pc = crate::text::to_decimal(row.pc as u64);
            push_left(&mut out, pc.as_str(), 3);
            out.append("  ");
            let text = row.instruction.to_text();
            push_right(&mut out, text.as_str(), 28);
            out.append("  [");
            let mut k: usize = 0;
            while k < NUM_REGISTERS
                invariant
                    k <= NUM_REGISTERS,
                    row == &self.rows@[i as int],
                    out@ == before + pad_left_spec(decimal(row.cycle as nat), 5) + "  "@ + pad_left_spec(
                        decimal(row.pc as nat),
                        3,
                    ) + "  "@ + pad_right_spec(text_of(row.instruction), 28) + "  ["@ + register_list(
                        row.registers@.subrange(0, k as int),
                    ),
                decreases NUM_REGISTERS - k,
            {
                let ghost mid = out@;
                if k > 0 {
                    out.append(", ");
                }
                crate::text::push_decimal(&mut out, row.registers[k].to_canonical_u64());
                proof {
                    reveal_strlit(", ");
                    let regs = row.registers@.subrange(0, k + 1);
                    assert(regs.drop_last() =~= row.registers@.subrange(0, k as int));
                    assert(regs.last() == row.registers@[k as int]);
                    if k == 0 {
                        assert(row.registers@.subrange(0, 0) =~= Seq::<F>::empty());
                        assert(out@ =~= mid + register_list(regs));
                    } else {
                        assert(out@ =~= mid + ", "@ + decimal(row.registers@[k as int].val() as nat));
                    }
                }
                k = k + 1;
            }
            out.append("]\n");
            proof {
                reveal_strlit("  ");
                reveal_strlit("  [");
                reveal_strlit("]\n");
                assert(row.registers@.subrange(0, 6) =~= row.registers@);
                assert(out@ =~= before + table_line(self.rows@[i as int]));
            }
            i = i + 1;
        }
        out
    }
}

} // verus!
