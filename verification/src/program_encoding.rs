//! The program commitment: each instruction is encoded as six field
//! elements (opcode, destination register, two source registers, address
//! or jump target, immediate), and the program is hashed as one sequence.

use vstd::prelude::*;
use crate::field::{Field, vals};
use crate::opcodes::{Instruction, opcode_of};
use crate::opcode_id;
use crate::poseidon::{Poseidon, hash_many_spec};

verus! {

/// The six-element encoding of an instruction, as canonical values.
pub open spec fn encoding_of<F: Field>(instr: Instruction<F>) -> Seq<int> {
    let p = F::p();
    match instr {
        Instruction::LoadImm { reg, imm } => seq![0, reg as int % p, 0, 0, 0, imm.val()],
        Instruction::Load { reg, addr } => seq![1, reg as int % p, 0, 0, addr as int % p, 0],
        Instruction::Store { addr, reg } => seq![2, 0, 0, reg as int % p, addr as int % p, 0],
        Instruction::Add { dst, a, b } => seq![3, dst as int % p, a as int % p, b as int % p, 0, 0],
        Instruction::Mul { dst, a, b } => seq![4, dst as int % p, a as int % p, b as int % p, 0, 0],
        Instruction::Jmp { target } => seq![5, 0, 0, 0, target as int % p, 0],
        Instruction::Jnz { reg, target } => seq![6, reg as int % p, 0, 0, target as int % p, 0],
        Instruction::Halt => seq![7, 0, 0, 0, 0, 0],
    }
}

/// The encodings of the instructions, one after another.
pub open spec fn program_words<F: Field>(program: Seq<Instruction<F>>) -> Seq<int>
    decreases program.len(),
{
    if program.len() == 0 {
        Seq::empty()
    } else {
        program_words(program.drop_last()) + encoding_of(program.last())
    }
}

fn small<F: Field>(x: usize) -> (r: F)
    ensures
        r.val() == x as int % F::p(),
{
    F::from_u64(x as u64)
}

fn opcode<F: Field>(id: usize) -> (r: F)
    requires
        id < 8,
    ensures
        r.val() == id as int,
{
    proof {
        F::lemma_modulus();
        vstd::arithmetic::div_mod::lemma_small_mod(id as nat, F::p() as nat);
    }
    F::from_u64(id as u64)
}

/// The encoding of one instruction.
fn encode_instruction<F: Field>(instr: &Instruction<F>) -> (r: [F; 6])
    ensures
        vals(r@) == encoding_of(*instr),
{
    let z = F::zero();
    let r = match *instr {
        Instruction::LoadImm { reg, imm } => [opcode(opcode_id::LOAD_IMM), small(reg), z, z, z, imm],
        Instruction::Load { reg, addr } => [opcode(opcode_id::LOAD), small(reg), z, z, small(addr), z],
        Instruction::Store { addr, reg } => [opcode(opcode_id::STORE), z, z, small(reg), small(addr), z],
        Instruction::Add { dst, a, b } => [opcode(opcode_id::ADD), small(dst), small(a), small(b), z, z],
        Instruction::Mul { dst, a, b } => [opcode(opcode_id::MUL), small(dst), small(a), small(b), z, z],
        Instruction::Jmp { target } => [opcode(opcode_id::JMP), z, z, z, small(target), z],
        Instruction::Jnz { reg, target } => [opcode(opcode_id::JNZ), small(reg), z, z, small(target), z],
        Instruction::Halt => [opcode(opcode_id::HALT), z, z, z, z, z],
    };
    proof {
        assert(vals(r@) =~= encoding_of(*instr));
    }
    r
}

/// The hash of the program's encoding, binding a proof to the program.
pub fn program_hash<F: Field>(hasher: &Poseidon<F>, program: &[Instruction<F>]) -> (r: F)
    requires
        program@.len() * 6 <= usize::MAX,
    ensures
        r.val() == hash_many_spec(hasher@, program_words(program@), F::p()),
{
    let mut flat: Vec<F> = Vec::with_capacity(program.len() * 6);
    let mut i: usize = 0;
    while i < program.len()
        invariant
            i <= program@.len(),
            vals(flat@) == program_words(program@.subrange(0, i as int)),
        decreases program@.len() - i,
    {
        let enc = encode_instruction(&program[i]);
        let mut j: usize = 0;
        let ghost start = flat@;
        while j < 6
            invariant
                j <= 6,
                vals(flat@) == vals(start) + vals(enc@).subrange(0, j as int),
            decreases 6 - j,
        {
            proof {
                crate::poly::lemma_vals_push(flat@, enc[j as int]);
            }
            flat.push(enc[j]);
            proof {
                assert(vals(enc@).subrange(0, j + 1) =~= vals(enc@).subrange(0, j as int).push(enc[j as int].val()));
            }
            j = j + 1;
        }
        proof {
            assert(vals(enc@).subrange(0, 6) =~= vals(enc@));
            assert(program@.subrange(0, i + 1).drop_last() =~= program@.subrange(0, i as int));
        }
        i = i + 1;
    }
    proof {
        assert(program@.subrange(0, program@.len() as int) =~= program@);
    }
    hasher.hash_many(flat.as_slice())
}

/// Every instruction is encoded as six words, the first of which is its
/// opcode id.
pub proof fn lemma_encoding_starts_with_opcode<F: Field>(instr: Instruction<F>)
    ensures
        encoding_of(instr).len() == 6,
        encoding_of(instr)[0] == opcode_of(instr),
{
}

/// Instructions with different opcodes have different encodings.
pub proof fn lemma_encoding_separates_opcodes<F: Field>(a: Instruction<F>, b: Instruction<F>)
    requires
        opcode_of(a) != opcode_of(b),
    ensures
        encoding_of(a) != encoding_of(b),
{
    lemma_encoding_starts_with_opcode(a);
    lemma_encoding_starts_with_opcode(b);
}

/// The words of a program are six per instruction, each instruction's
/// encoding at its own offset.
pub proof fn lemma_program_words_layout<F: Field>(program: Seq<Instruction<F>>)
    ensures
        program_words(program).len() == 6 * program.len(),
        forall|k: int, j: int|
            0 <= k < program.len() && 0 <= j < 6 ==> #[trigger] program_words(program)[6 * k + j]
                == encoding_of(program[k])[j],
    decreases program.len(),
{
    if program.len() > 0 {
        let init = program.drop_last();
        lemma_program_words_layout(init);
        lemma_encoding_starts_with_opcode(program.last());
        let w = program_words(program);
        assert forall|k: int, j: int| 0 <= k < program.len() && 0 <= j < 6 implies #[trigger] w[6 * k + j]
            == encoding_of(program[k])[j] by {
            if k < program.len() - 1 {
                assert(init[k] == program[k]);
                assert(w[6 * k + j] == program_words(init)[6 * k + j]);
            } else {
                assert(w[6 * k + j] == encoding_of(program.last())[6 * k + j - 6 * init.len()]);
            }
        }
    }
}

/// Programs whose encodings are equal have the same length and the same
/// opcode at every position: programs that differ in an opcode are encoded
/// differently.
pub proof fn lemma_program_words_fix_opcodes<F: Field>(a: Seq<Instruction<F>>, b: Seq<Instruction<F>>)
    requires
        program_words(a) == program_words(b),
    ensures
        a.len() == b.len(),
        forall|k: int| 0 <= k < a.len() ==> opcode_of(#[trigger] a[k]) == opcode_of(b[k]),
{
    lemma_program_words_layout(a);
    lemma_program_words_layout(b);
    assert forall|k: int| 0 <= k < a.len() implies opcode_of(#[trigger] a[k]) == opcode_of(b[k]) by {
        lemma_encoding_starts_with_opcode(a[k]);
        lemma_encoding_starts_with_opcode(b[k]);
        assert(program_words(a)[6 * k + 0] == encoding_of(a[k])[0]);
        assert(program_words(b)[6 * k + 0] == encoding_of(b[k])[0]);
    }
}

} // verus!
