//! The CPU: what each instruction does to the registers, memory and
//! program counter.

use vstd::prelude::*;
use crate::field::{Field, vals};
use crate::opcodes::{Instruction, MEMORY_SIZE, NUM_REGISTERS, instruction_valid};

verus! {

/// The memory traffic of one step: at most one read and at most one write,
/// each an address and a value.
#[derive(Debug, Clone, Copy, PartialEq, Eq)]
pub struct MemoryAccess<F: Field> {
    pub read: Option<(usize, F)>,
    pub write: Option<(usize, F)>,
}

/// The state of the CPU.
#[derive(Debug, Clone, PartialEq, Eq)]
pub struct CpuState<F: Field> {
    pub pc: usize,
    pub registers: [F; NUM_REGISTERS],
    pub memory: Vec<F>,
    pub halted: bool,
}

/// The CPU state as plain values.
pub struct CpuView {
    pub pc: int,
    pub registers: Seq<int>,
    pub memory: Seq<int>,
    pub halted: bool,
}

/// A memory access as plain values.
pub struct AccessView {
    pub read: Option<(int, int)>,
    pub write: Option<(int, int)>,
}

impl<F: Field> View for CpuState<F> {
    type V = CpuView;

    open spec fn view(&self) -> CpuView {
        CpuView {
            pc: self.pc as int,
            registers: vals(self.registers@),
            memory: vals(self.memory@),
            halted: self.halted,
        }
    }
}

/// A memory access entry as plain values.
pub open spec fn entry_view<F: Field>(e: Option<(usize, F)>) -> Option<(int, int)> {
    match e {
        Some((a, v)) => Some((a as int, v.val())),
        None => None,
    }
}

impl<F: Field> View for MemoryAccess<F> {
    type V = AccessView;

    open spec fn view(&self) -> AccessView {
        AccessView { read: entry_view(self.read), write: entry_view(self.write) }
    }
}

/// The state after executing `i` in state `s`, and the memory traffic.
pub open spec fn exec_step<F: Field>(s: CpuView, i: Instruction<F>) -> (CpuView, AccessView) {
    let p = F::p();
    let none = AccessView { read: None, write: None };
    match i {
        Instruction::LoadImm { reg, imm } => (
            CpuView { pc: s.pc + 1, registers: s.registers.update(reg as int, imm.val()), ..s },
            none,
        ),
        Instruction::Load { reg, addr } => (
            CpuView {
                pc: s.pc + 1,
                registers: s.registers.update(reg as int, s.memory[addr as int]),
                ..s
            },
            AccessView { read: Some((addr as int, s.memory[addr as int])), write: None },
        ),
        Instruction::Store { addr, reg } => (
            CpuView {
                pc: s.pc + 1,
                memory: s.memory.update(addr as int, s.registers[reg as int]),
                ..s
            },
            AccessView { read: None, write: Some((addr as int, s.registers[reg as int])) },
        ),
        Instruction::Add { dst, a, b } => (
            CpuView {
                pc: s.pc + 1,
                registers: s.registers.update(
                    dst as int,
                    (s.registers[a as int] + s.registers[b as int]) % p,
                ),
                ..s
            },
            none,
        ),
        Instruction::Mul { dst, a, b } => (
            CpuView {
                pc: s.pc + 1,
                registers: s.registers.update(
                    dst as int,
                    (s.registers[a as int] * s.registers[b as int]) % p,
                ),
                ..s
            },
            none,
        ),
        Instruction::Jmp { target } => (CpuView { pc: target as int, ..s }, none),
        Instruction::Jnz { reg, target } => (
            CpuView {
                pc: if s.registers[reg as int] != 0 {
                    target as int
                } else {
                    s.pc + 1
                },
                ..s
            },
            none,
        ),
        Instruction::Halt => (CpuView { halted: true, ..s }, none),
    }
}

/// The conditions under which `step` runs without a panic: the registers
/// it names exist, a memory address it reads or writes lies inside the
/// memory, the program counter does not overflow when it advances, and a
/// taken jump lands inside the program.
pub open spec fn step_ok<F: Field>(s: CpuView, i: Instruction<F>, program_len: int) -> bool {
    let nr = NUM_REGISTERS;
    &&& s.registers.len() == NUM_REGISTERS
    &&& match i {
        Instruction::LoadImm { reg, .. } => reg < nr && s.pc < usize::MAX,
        Instruction::Load { reg, addr } => reg < nr && addr < s.memory.len() && s.pc < usize::MAX,
        Instruction::Store { addr, reg } => reg < nr && addr < s.memory.len() && s.pc < usize::MAX,
        Instruction::Add { dst, a, b } => dst < nr && a < nr && b < nr && s.pc < usize::MAX,
        Instruction::Mul { dst, a, b } => dst < nr && a < nr && b < nr && s.pc < usize::MAX,
        Instruction::Jmp { target } => target < program_len,
        Instruction::Jnz { reg, target } => reg < nr && if s.registers[reg as int] != 0 {
            target < program_len
        } else {
            s.pc < usize::MAX
        },
        Instruction::Halt => true,
    }
}

/// One cycle of a run of a checked program: the instruction's operands are
/// in range, the memory has its full size, and `step` runs without a panic.
pub open spec fn run_step_ok<F: Field>(s: CpuView, i: Instruction<F>, program_len: int) -> bool {
    &&& instruction_valid(i)
    &&& s.memory.len() == MEMORY_SIZE
    &&& s.registers.len() == NUM_REGISTERS
    &&& s.pc < usize::MAX
    &&& step_ok(s, i, program_len)
}

impl<F: Field> CpuState<F> {
    /// A fresh CPU: pc 0, every register 0, memory the given words padded
    /// with zeros to `MEMORY_SIZE` words.
    pub fn new(initial_memory: Vec<F>) -> (r: Self)
        requires
            initial_memory@.len() <= MEMORY_SIZE,
        ensures
            r@.pc == 0,
            r@.registers == Seq::new(NUM_REGISTERS as nat, |i: int| 0int),
            r@.memory.len() == MEMORY_SIZE,
            forall|i: int| 0 <= i < initial_memory@.len() ==> r@.memory[i] == initial_memory@[i].val(),
            forall|i: int| initial_memory@.len() <= i < MEMORY_SIZE ==> r@.memory[i] == 0,
            !r@.halted,
    {
        let mut memory = initial_memory;
        let ghost orig = memory@;
        let z = F::zero();
        while memory.len() < MEMORY_SIZE
            invariant
                orig.len() <= memory@.len() <= MEMORY_SIZE,
                z.val() == 0,
                forall|i: int| 0 <= i < orig.len() ==> memory@[i] == orig[i],
                forall|i: int| orig.len() <= i < memory@.len() ==> memory@[i] == z,
            decreases MEMORY_SIZE - memory.len(),
        {
            memory.push(z);
        }
        let registers = [z, z, z, z, z, z];
        proof {
            assert(vals(registers@) =~= Seq::new(NUM_REGISTERS as nat, |i: int| 0int));
        }
        CpuState { pc: 0, registers, memory, halted: false }
    }

    /// The value of register `r`.
    pub fn get_reg(&self, r: usize) -> (v: F)
        requires
            r < NUM_REGISTERS,
        ensures
            v == self.registers@[r as int],
            v.val() == self@.registers[r as int],
    {
        self.registers[r]
    }

    fn set_reg(&mut self, r: usize, value: F)
        requires
            r < NUM_REGISTERS,
        ensures
            final(self).registers@ == old(self).registers@.update(r as int, value),
            final(self).pc == old(self).pc,
            final(self).memory == old(self).memory,
            final(self).halted == old(self).halted,
    {
        self.registers[r] = value;
    }

    /// Executes one instruction.
    pub fn step(&mut self, instr: &Instruction<F>, program_len: usize) -> (access: MemoryAccess<F>)
        requires
            step_ok(old(self)@, *instr, program_len as int),
        ensures
            final(self)@ == exec_step(old(self)@, *instr).0,
            access@ == exec_step(old(self)@, *instr).1,
    {
        let ghost s0 = self@;
        proof {
            F::lemma_modulus();
        }
        let mut access = MemoryAccess { read: None, write: None };
        match *instr {
            Instruction::LoadImm { reg, imm } => {
                self.set_reg(reg, imm);
                self.pc = self.pc + 1;
                proof {
                    assert(vals(self.registers@) =~= s0.registers.update(reg as int, imm.val()));
                }
            },
            Instruction::Load { reg, addr } => {
                let value = self.memory[addr];
                self.set_reg(reg, value);
                access.read = Some((addr, value));
                self.pc = self.pc + 1;
                proof {
                    assert(vals(self.registers@) =~= s0.registers.update(reg as int, s0.memory[addr as int]));
                }
            },
            Instruction::Store { addr, reg } => {
                let value = self.get_reg(reg);
                self.memory.set(addr, value);
                access.write = Some((addr, value));
                self.pc = self.pc + 1;
                proof {
                    assert(vals(self.memory@) =~= s0.memory.update(addr as int, s0.registers[reg as int]));
                }
            },
            Instruction::Add { dst, a, b } => {
                let sum = self.get_reg(a).fadd(self.get_reg(b));
                self.set_reg(dst, sum);
                self.pc = self.pc + 1;
                proof {
                    assert(vals(self.registers@) =~= s0.registers.update(
                        dst as int,
                        (s0.registers[a as int] + s0.registers[b as int]) % F::p(),
                    ));
                }
            },
            Instruction::Mul { dst, a, b } => {
                let product = self.get_reg(a).fmul(self.get_reg(b));
                self.set_reg(dst, product);
                self.pc = self.pc + 1;
                proof {
                    assert(vals(self.registers@) =~= s0.registers.update(
                        dst as int,
                        (s0.registers[a as int] * s0.registers[b as int]) % F::p(),
                    ));
                }
            },
            Instruction::Jmp { target } => {
                self.pc = target;
            },
            Instruction::Jnz { reg, target } => {
                if !self.get_reg(reg).is_zero() {
                    self.pc = target;
                } else {
                    self.pc = self.pc + 1;
                }
            },
            Instruction::Halt => {
                self.halted = true;
            },
        }
        access
    }
}

} // verus!
