//! The instruction set of the toy CPU: six registers, sixteen memory
//! words, and eight instructions.

use vstd::prelude::*;
use vstd::string::StringExecFns;
use crate::field::Field;
use crate::text::{decimal, push_decimal};

verus! {

pub const NUM_REGISTERS: usize = 6;

pub const MEMORY_SIZE: usize = 16;

pub const NUM_OPCODES: usize = 8;

/// One instruction.
#[derive(Debug, Clone, Copy, PartialEq, Eq)]
pub enum Instruction<F: Field> {
    LoadImm { reg: usize, imm: F },
    Load { reg: usize, addr: usize },
    Store { addr: usize, reg: usize },
    Add { dst: usize, a: usize, b: usize },
    Mul { dst: usize, a: usize, b: usize },
    Jmp { target: usize },
    Jnz { reg: usize, target: usize },
    Halt,
}

/// The opcode id of an instruction (see `opcode_id`).
pub open spec fn opcode_of<F: Field>(i: Instruction<F>) -> nat {
    match i {
        Instruction::LoadImm { .. } => 0,
        Instruction::Load { .. } => 1,
        Instruction::Store { .. } => 2,
        Instruction::Add { .. } => 3,
        Instruction::Mul { .. } => 4,
        Instruction::Jmp { .. } => 5,
        Instruction::Jnz { .. } => 6,
        Instruction::Halt => 7,
    }
}

/// The mnemonic of an instruction.
pub open spec fn mnemonic_of<F: Field>(i: Instruction<F>) -> Seq<char> {
    match i {
        Instruction::LoadImm { .. } => "loadimm"@,
        Instruction::Load { .. } => "load"@,
        Instruction::Store { .. } => "store"@,
        Instruction::Add { .. } => "add"@,
        Instruction::Mul { .. } => "mul"@,
        Instruction::Jmp { .. } => "jmp"@,
        Instruction::Jnz { .. } => "jnz"@,
        Instruction::Halt => "halt"@,
    }
}

/// The assembly text of an instruction.
pub open spec fn text_of<F: Field>(i: Instruction<F>) -> Seq<char> {
    match i {
        Instruction::LoadImm { reg, imm } => "loadimm r"@ + decimal(reg as nat) + ", "@ + decimal(
            imm.val() as nat,
        ),
        Instruction::Load { reg, addr } => "load    r"@ + decimal(reg as nat) + ", ["@ + decimal(
            addr as nat,
        ) + "]"@,
        Instruction::Store { addr, reg } => "store   ["@ + decimal(addr as nat) + "], r"@ + decimal(
            reg as nat,
        ),
        Instruction::Add { dst, a, b } => "add     r"@ + decimal(dst as nat) + ", r"@ + decimal(
            a as nat,
        ) + ", r"@ + decimal(b as nat),
        Instruction::Mul { dst, a, b } => "mul     r"@ + decimal(dst as nat) + ", r"@ + decimal(
            a as nat,
        ) + ", r"@ + decimal(b as nat),
        Instruction::Jmp { target } => "jmp     "@ + decimal(target as nat),
        Instruction::Jnz { reg, target } => "jnz     r"@ + decimal(reg as nat) + ", "@ + decimal(
            target as nat,
        ),
        Instruction::Halt => "halt"@,
    }
}

/// Every register and memory index of the instruction is in range.
pub open spec fn instruction_valid<F: Field>(i: Instruction<F>) -> bool {
    match i {
        Instruction::LoadImm { reg, .. } => reg < NUM_REGISTERS,
        Instruction::Load { reg, addr } => reg < NUM_REGISTERS && addr < MEMORY_SIZE,
        Instruction::Store { addr, reg } => addr < MEMORY_SIZE && reg < NUM_REGISTERS,
        Instruction::Add { dst, a, b } => dst < NUM_REGISTERS && a < NUM_REGISTERS && b
            < NUM_REGISTERS,
        Instruction::Mul { dst, a, b } => dst < NUM_REGISTERS && a < NUM_REGISTERS && b
            < NUM_REGISTERS,
        Instruction::Jmp { .. } => true,
        Instruction::Jnz { reg, .. } => reg < NUM_REGISTERS,
        Instruction::Halt => true,
    }
}

/// The message for an out-of-range register index.
pub open spec fn register_error_text(r: usize, name: Seq<char>) -> Seq<char> {
    "register index "@ + decimal(r as nat) + " (in "@ + name + ") out of range 0.."@ + decimal(
        NUM_REGISTERS as nat,
    )
}

/// The message for an out-of-range memory address.
pub open spec fn address_error_text(a: usize, name: Seq<char>) -> Seq<char> {
    "memory address "@ + decimal(a as nat) + " (in "@ + name + ") out of range 0.."@ + decimal(
        MEMORY_SIZE as nat,
    )
}

/// The first range check that fails, in the order `validate_instruction`
/// checks the operands.
pub open spec fn register_check(r: usize, name: Seq<char>) -> Option<Seq<char>> {
    if r >= NUM_REGISTERS {
        Some(register_error_text(r, name))
    } else {
        None
    }
}

pub open spec fn address_check(a: usize, name: Seq<char>) -> Option<Seq<char>> {
    if a >= MEMORY_SIZE {
        Some(address_error_text(a, name))
    } else {
        None
    }
}

/// The first of two checks that fails.
pub open spec fn or_else(first: Option<Seq<char>>, second: Option<Seq<char>>) -> Option<Seq<char>> {
    if first is Some {
        first
    } else {
        second
    }
}

/// The error `validate_instruction` reports, if any.
pub open spec fn validation_error<F: Field>(i: Instruction<F>) -> Option<Seq<char>> {
    match i {
        Instruction::LoadImm { reg, .. } => register_check(reg, "reg"@),
        Instruction::Load { reg, addr } => or_else(
            register_check(reg, "reg"@),
            address_check(addr, "addr"@),
        ),
        Instruction::Store { addr, reg } => or_else(
            address_check(addr, "addr"@),
            register_check(reg, "reg"@),
        ),
        Instruction::Add { dst, a, b } => or_else(
            register_check(dst, "dst"@),
            or_else(register_check(a, "a"@), register_check(b, "b"@)),
        ),
        Instruction::Mul { dst, a, b } => or_else(
            register_check(dst, "dst"@),
            or_else(register_check(a, "a"@), register_check(b, "b"@)),
        ),
        Instruction::Jmp { .. } => None,
        Instruction::Jnz { reg, .. } => register_check(reg, "reg"@),
        Instruction::Halt => None,
    }
}

impl<F: Field> Instruction<F> {
    /// The opcode id, matching the constants in `opcode_id`.
    pub fn opcode_index(&self) -> (r: usize)
        ensures
            r == opcode_of(*self),
            r < NUM_OPCODES,
    {
        match self {
            Instruction::LoadImm { .. } => 0,
            Instruction::Load { .. } => 1,
            Instruction::Store { .. } => 2,
            Instruction::Add { .. } => 3,
            Instruction::Mul { .. } => 4,
            Instruction::Jmp { .. } => 5,
            Instruction::Jnz { .. } => 6,
            Instruction::Halt => 7,
        }
    }

    /// The instruction's mnemonic.
    pub fn mnemonic(&self) -> (r: &'static str)
        ensures
            r@ == mnemonic_of(*self),
    {
        match self {
            Instruction::LoadImm { .. } => "loadimm",
            Instruction::Load { .. } => "load",
            Instruction::Store { .. } => "store",
            Instruction::Add { .. } => "add",
            Instruction::Mul { .. } => "mul",
            Instruction::Jmp { .. } => "jmp",
            Instruction::Jnz { .. } => "jnz",
            Instruction::Halt => "halt",
        }
    }

    /// The instruction in assembly syntax, e.g. `add     r1, r2, r3`.
    pub fn to_text(&self) -> (r: String)
        ensures
            r@ == text_of(*self),
    {
        match *self {
            Instruction::LoadImm { reg, imm } => {
                let mut s = String::from_str("loadimm r");
                push_decimal(&mut s, reg as u64);
                s.append(", ");
                push_decimal(&mut s, imm.to_canonical_u64());
                proof {
                    F::lemma_val_range(imm);
                }
                s
            },
            Instruction::Load { reg, addr } => {
                let mut s = String::from_str("load    r");
                push_decimal(&mut s, reg as u64);
                s.append(", [");
                push_decimal(&mut s, addr as u64);
                s.append("]");
                s
            },
            Instruction::Store { addr, reg } => {
                let mut s = String::from_str("store   [");
                push_decimal(&mut s, addr as u64);
                s.append("], r");
                push_decimal(&mut s, reg as u64);
                s
            },
            Instruction::Add { dst, a, b } => {
                let mut s = String::from_str("add     r");
                push_decimal(&mut s, dst as u64);
                s.append(", r");
                push_decimal(&mut s, a as u64);
                s.append(", r");
                push_decimal(&mut s, b as u64);
                s
            },
            Instruction::Mul { dst, a, b } => {
                let mut s = String::from_str("mul     r");
                push_decimal(&mut s, dst as u64);
                s.append(", r");
                push_decimal(&mut s, a as u64);
                s.append(", r");
                push_decimal(&mut s, b as u64);
                s
            },
            Instruction::Jmp { target } => {
                let mut s = String::from_str("jmp     ");
                push_decimal(&mut s, target as u64);
                s
            },
            Instruction::Jnz { reg, target } => {
                let mut s = String::from_str("jnz     r");
                push_decimal(&mut s, reg as u64);
                s.append(", ");
                push_decimal(&mut s, target as u64);
                s
            },
            Instruction::Halt => String::from_str("halt"),
        }
    }
}

fn check_reg(r: usize, name: &str) -> (res: Result<(), String>)
    ensures
        match res {
            Ok(()) => register_check(r, name@) is None,
            Err(e) => register_check(r, name@) == Some(e@),
        },
{
    if r >= NUM_REGISTERS {
        let mut s = String::from_str("register index ");
        push_decimal(&mut s, r as u64);
        s.append(" (in ");
        s.append(name);
        s.append(") out of range 0..");
        push_decimal(&mut s, NUM_REGISTERS as u64);
        Err(s)
    } else {
        Ok(())
    }
}

fn check_addr(a: usize, name: &str) -> (res: Result<(), String>)
    ensures
        match res {
            Ok(()) => address_check(a, name@) is None,
            Err(e) => address_check(a, name@) == Some(e@),
        },
{
    if a >= MEMORY_SIZE {
        let mut s = String::from_str("memory address ");
        push_decimal(&mut s, a as u64);
        s.append(" (in ");
        s.append(name);
        s.append(") out of range 0..");
        push_decimal(&mut s, MEMORY_SIZE as u64);
        Err(s)
    } else {
        Ok(())
    }
}

/// Checks that every register and memory index of the instruction is in range.
pub fn validate_instruction<F: Field>(instr: &Instruction<F>) -> (r: Result<(), String>)
    ensures
        match r {
            Ok(()) => validation_error(*instr) is None,
            Err(e) => validation_error(*instr) == Some(e@),
        },
        r is Ok <==> instruction_valid(*instr),
{
    match *instr {
        Instruction::LoadImm { reg, .. } => check_reg(reg, "reg"),
        Instruction::Load { reg, addr } => {
            let r1 = check_reg(reg, "reg");
            if r1.is_err() {
                return r1;
            }
            check_addr(addr, "addr")
        },
        Instruction::Store { addr, reg } => {
            let r1 = check_addr(addr, "addr");
            if r1.is_err() {
                return r1;
            }
            check_reg(reg, "reg")
        },
        Instruction::Add { dst, a, b } | Instruction::Mul { dst, a, b } => {
            let r1 = check_reg(dst, "dst");
            if r1.is_err() {
                return r1;
            }
            let r2 = check_reg(a, "a");
            if r2.is_err() {
                return r2;
            }
            check_reg(b, "b")
        },
        Instruction::Jmp { .. } => Ok(()),
        Instruction::Jnz { reg, .. } => check_reg(reg, "reg"),
        Instruction::Halt => Ok(()),
    }
}

} // verus!
