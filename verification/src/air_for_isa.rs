//! The AIR's view of the CPU: one row of field-valued columns per cycle,
//! with one-hot selector columns for the opcode and the register indices.

use vstd::prelude::*;
use crate::field::{Field, vals};
use crate::opcodes::{Instruction, NUM_OPCODES, NUM_REGISTERS, MEMORY_SIZE, instruction_valid, opcode_of};
use crate::cpu::entry_view;
use crate::trace::{ExecutionTrace, TraceRow};

verus! {

/// One AIR row.
#[derive(Debug, Clone, PartialEq, Eq)]
pub struct Row<F: Field> {
    pub pc: F,
    pub registers: [F; NUM_REGISTERS],
    pub sel: [F; NUM_OPCODES],
    pub is_write_r: [F; NUM_REGISTERS],
    pub is_read_a_r: [F; NUM_REGISTERS],
    pub is_read_b_r: [F; NUM_REGISTERS],
    pub addr: F,
    pub imm: F,
    pub mem_read_value: F,
    pub mem_write_value: F,
    pub jnz_is_zero: F,
    pub jnz_inv: F,
}

/// The number of columns of a row.
pub const NUM_COLUMNS: usize = 39;

/// The largest valid memory address.
pub const MAX_MEMORY_ADDRESS: usize = 15;

/// A row as plain values.
pub struct RowView {
    pub pc: int,
    pub registers: Seq<int>,
    pub sel: Seq<int>,
    pub is_write_r: Seq<int>,
    pub is_read_a_r: Seq<int>,
    pub is_read_b_r: Seq<int>,
    pub addr: int,
    pub imm: int,
    pub mem_read_value: int,
    pub mem_write_value: int,
    pub jnz_is_zero: int,
    pub jnz_inv: int,
}

impl<F: Field> View for Row<F> {
    type V = RowView;

    open spec fn view(&self) -> RowView {
        RowView {
            pc: self.pc.val(),
            registers: vals(self.registers@),
            sel: vals(self.sel@),
            is_write_r: vals(self.is_write_r@),
            is_read_a_r: vals(self.is_read_a_r@),
            is_read_b_r: vals(self.is_read_b_r@),
            addr: self.addr.val(),
            imm: self.imm.val(),
            mem_read_value: self.mem_read_value.val(),
            mem_write_value: self.mem_write_value.val(),
            jnz_is_zero: self.jnz_is_zero.val(),
            jnz_inv: self.jnz_inv.val(),
        }
    }
}

/// The columns of a row, in their fixed order.
pub open spec fn row_columns<F: Field>(r: Row<F>) -> Seq<F> {
    seq![r.pc] + r.registers@ + r.sel@ + r.is_write_r@ + r.is_read_a_r@ + r.is_read_b_r@ + seq![
        r.addr,
        r.imm,
        r.mem_read_value,
        r.mem_write_value,
        r.jnz_is_zero,
        r.jnz_inv,
    ]
}

/// The unit vector of length `n` with a 1 at `index`.
pub open spec fn unit(index: int, n: nat) -> Seq<int> {
    Seq::new(n, |k: int| if k == index { 1int } else { 0int })
}

/// `sum_{k < n} a_k * b_k` accumulated in the field, as `selected_value` does.
pub open spec fn dot(a: Seq<int>, b: Seq<int>, n: nat, p: int) -> int
    decreases n,
{
    if n == 0 {
        0
    } else {
        (dot(a, b, (n - 1) as nat, p) + (a[n - 1] * b[n - 1]) % p) % p
    }
}

impl<F: Field> Row<F> {
    /// The row as a column vector.
    pub fn to_columns(&self) -> (r: Vec<F>)
        ensures
            r@ == row_columns(*self),
            r@.len() == NUM_COLUMNS,
    {
        let mut v: Vec<F> = Vec::with_capacity(NUM_COLUMNS);
        v.push(self.pc);
        push_all(&mut v, &self.registers);
        push_all(&mut v, &self.sel);
        push_all(&mut v, &self.is_write_r);
        push_all(&mut v, &self.is_read_a_r);
        push_all(&mut v, &self.is_read_b_r);
        v.push(self.addr);
        v.push(self.imm);
        v.push(self.mem_read_value);
        v.push(self.mem_write_value);
        v.push(self.jnz_is_zero);
        v.push(self.jnz_inv);
        proof {
            assert(v@ =~= row_columns(*self));
        }
        v
    }

    /// The row stored in a column vector of exactly `NUM_COLUMNS` values.
    pub fn from_columns(cols: &[F]) -> (r: Self)
        requires
            cols@.len() == NUM_COLUMNS,
        ensures
            row_columns(r) == cols@,
    {
        let r = Row {
            pc: cols[0],
            registers: [cols[1], cols[2], cols[3], cols[4], cols[5], cols[6]],
            sel: [cols[7], cols[8], cols[9], cols[10], cols[11], cols[12], cols[13], cols[14]],
            is_write_r: [cols[15], cols[16], cols[17], cols[18], cols[19], cols[20]],
            is_read_a_r: [cols[21], cols[22], cols[23], cols[24], cols[25], cols[26]],
            is_read_b_r: [cols[27], cols[28], cols[29], cols[30], cols[31], cols[32]],
            addr: cols[33],
            imm: cols[34],
            mem_read_value: cols[35],
            mem_write_value: cols[36],
            jnz_is_zero: cols[37],
            jnz_inv: cols[38],
        };
        proof {
            assert(row_columns(r) =~= cols@);
        }
        r
    }
}

fn push_all<F: Field>(v: &mut Vec<F>, s: &[F])
    ensures
        final(v)@ == old(v)@ + s@,
{
    let mut i: usize = 0;
    while i < s.len()
        invariant
            i <= s@.len(),
            v@ == old(v)@ + s@.subrange(0, i as int),
        decreases s.len() - i,
    {
        v.push(s[i]);
        i = i + 1;
        proof {
            assert(v@ =~= old(v)@ + s@.subrange(0, i as int));
        }
    }
    proof {
        assert(s@.subrange(0, s@.len() as int) =~= s@);
    }
}

/// Reading the columns back gives the same fields.
pub proof fn lemma_columns_round_trip<F: Field>(r: Row<F>, back: Row<F>)
    requires
        row_columns(back) == row_columns(r),
    ensures
        back@ == r@,
{
    let c = row_columns(r);
    assert(back.registers@ =~= c.subrange(1, 7));
    assert(r.registers@ =~= c.subrange(1, 7));
    assert(back.sel@ =~= c.subrange(7, 15));
    assert(r.sel@ =~= c.subrange(7, 15));
    assert(back.is_write_r@ =~= c.subrange(15, 21));
    assert(r.is_write_r@ =~= c.subrange(15, 21));
    assert(back.is_read_a_r@ =~= c.subrange(21, 27));
    assert(r.is_read_a_r@ =~= c.subrange(21, 27));
    assert(back.is_read_b_r@ =~= c.subrange(27, 33));
    assert(r.is_read_b_r@ =~= c.subrange(27, 33));
    assert(c[0] == r.pc && row_columns(back)[0] == back.pc);
    assert(c[33] == r.addr && row_columns(back)[33] == back.addr);
    assert(c[34] == r.imm && row_columns(back)[34] == back.imm);
    assert(c[35] == r.mem_read_value && row_columns(back)[35] == back.mem_read_value);
    assert(c[36] == r.mem_write_value && row_columns(back)[36] == back.mem_write_value);
    assert(c[37] == r.jnz_is_zero && row_columns(back)[37] == back.jnz_is_zero);
    assert(c[38] == r.jnz_inv && row_columns(back)[38] == back.jnz_inv);
}

/// The one-hot register vector selecting `index`.
pub fn one_hot<F: Field>(index: usize) -> (r: [F; NUM_REGISTERS])
    requires
        index < NUM_REGISTERS,
    ensures
        vals(r@) == unit(index as int, NUM_REGISTERS as nat),
{
    let z = F::zero();
    let mut v = [z, z, z, z, z, z];
    v[index] = F::one();
    proof {
        assert(vals(v@) =~= unit(index as int, NUM_REGISTERS as nat));
    }
    v
}

/// `sum_k one_hot[k] * values[k]`: the value a one-hot vector selects.
pub fn selected_value<F: Field>(one_hot: &[F; NUM_REGISTERS], values: &[F; NUM_REGISTERS]) -> (r: F)
    ensures
        r.val() == dot(vals(one_hot@), vals(values@), NUM_REGISTERS as nat, F::p()),
{
    let mut acc = F::zero();
    let mut k: usize = 0;
    while k < NUM_REGISTERS
        invariant
            k <= NUM_REGISTERS,
            acc.val() == dot(vals(one_hot@), vals(values@), k as nat, F::p()),
        decreases NUM_REGISTERS - k,
    {
        acc = acc.fadd(one_hot[k].fmul(values[k]));
        k = k + 1;
    }
    acc
}

/// A one-hot vector selects the value at its 1.
pub proof fn lemma_dot_unit<F: Field>(index: int, values: Seq<int>, n: nat)
    requires
        0 <= index < n,
        values.len() >= n,
        forall|k: int| 0 <= k < values.len() ==> 0 <= #[trigger] values[k] < F::p(),
    ensures
        dot(unit(index, n), values, n, F::p()) == values[index],
{
    F::lemma_modulus();
    lemma_dot_unit_prefix::<F>(index, values, n, n);
}

proof fn lemma_dot_unit_prefix<F: Field>(index: int, values: Seq<int>, n: nat, m: nat)
    requires
        0 <= index < n,
        m <= n,
        values.len() >= n,
        F::p() > 2,
        forall|k: int| 0 <= k < values.len() ==> 0 <= #[trigger] values[k] < F::p(),
    ensures
        dot(unit(index, n), values, m, F::p()) == if index < m { values[index] } else { 0 },
    decreases m,
{
    let p = F::p();
    if m > 0 {
        lemma_dot_unit_prefix::<F>(index, values, n, (m - 1) as nat);
        let prev = dot(unit(index, n), values, (m - 1) as nat, p);
        let u = unit(index, n)[m - 1];
        if m - 1 == index {
            assert(u == 1);
            vstd::arithmetic::div_mod::lemma_small_mod(values[index] as nat, p as nat);
            assert(prev == 0);
        } else {
            assert(u == 0);
            vstd::arithmetic::div_mod::lemma_small_mod(0, p as nat);
            if index < m - 1 {
                vstd::arithmetic::div_mod::lemma_small_mod(values[index] as nat, p as nat);
            }
        }
    }
}

/// The register-index one-hot vectors and the operand fields an
/// instruction puts in its row.
pub open spec fn write_index<F: Field>(i: Instruction<F>) -> int {
    match i {
        Instruction::LoadImm { reg, .. } => reg as int,
        Instruction::Load { reg, .. } => reg as int,
        Instruction::Add { dst, .. } => dst as int,
        Instruction::Mul { dst, .. } => dst as int,
        _ => 0,
    }
}

pub open spec fn read_a_index<F: Field>(i: Instruction<F>) -> int {
    match i {
        Instruction::Store { reg, .. } => reg as int,
        Instruction::Add { a, .. } => a as int,
        Instruction::Mul { a, .. } => a as int,
        Instruction::Jnz { reg, .. } => reg as int,
        _ => 0,
    }
}

pub open spec fn read_b_index<F: Field>(i: Instruction<F>) -> int {
    match i {
        Instruction::Add { b, .. } => b as int,
        Instruction::Mul { b, .. } => b as int,
        _ => 0,
    }
}

pub open spec fn addr_operand<F: Field>(i: Instruction<F>) -> int {
    match i {
        Instruction::Load { addr, .. } => addr as int,
        Instruction::Store { addr, .. } => addr as int,
        Instruction::Jmp { target } => target as int,
        Instruction::Jnz { target, .. } => target as int,
        _ => 0,
    }
}

pub open spec fn imm_operand<F: Field>(i: Instruction<F>) -> int {
    match i {
        Instruction::LoadImm { imm, .. } => imm.val(),
        _ => 0,
    }
}

/// The value of an optional memory access, zero when absent.
pub open spec fn access_value(e: Option<(int, int)>) -> int {
    match e {
        Some((_, v)) => v,
        None => 0,
    }
}

/// The AIR row that `build_row` makes from a trace row.
pub open spec fn row_of<F: Field>(t: TraceRow<F>) -> RowView {
    let p = F::p();
    let regs = vals(t.registers@);
    let read_a = dot(unit(read_a_index(t.instruction), NUM_REGISTERS as nat), regs, NUM_REGISTERS as nat, p);
    RowView {
        pc: t.pc as int % p,
        registers: regs,
        sel: unit(opcode_of(t.instruction) as int, NUM_OPCODES as nat),
        is_write_r: unit(write_index(t.instruction), NUM_REGISTERS as nat),
        is_read_a_r: unit(read_a_index(t.instruction), NUM_REGISTERS as nat),
        is_read_b_r: unit(read_b_index(t.instruction), NUM_REGISTERS as nat),
        addr: addr_operand(t.instruction) % p,
        imm: imm_operand(t.instruction),
        mem_read_value: access_value(entry_view(t.memory_access.read)),
        mem_write_value: access_value(entry_view(t.memory_access.write)),
        jnz_is_zero: if read_a == 0 { 1 } else { 0 },
        jnz_inv: if read_a == 0 { 0 } else { F::inv_val(read_a) },
    }
}

/// The AIR rows of a whole trace, one per cycle.
pub fn build_rows<F: Field>(trace: &ExecutionTrace<F>) -> (r: Vec<Row<F>>)
    requires
        forall|i: int| 0 <= i < trace.rows@.len() ==> instruction_valid(#[trigger] trace.rows@[i].instruction),
    ensures
        r@.len() == trace.rows@.len(),
        forall|i: int| 0 <= i < r@.len() ==> #[trigger] r@[i]@ == row_of(trace.rows@[i]),
{
    let n = trace.rows.len();
    let mut out: Vec<Row<F>> = Vec::with_capacity(n);
    let mut i: usize = 0;
    while i < n
        invariant
            i <= n,
            n == trace.rows@.len(),
            out@.len() == i,
            forall|j: int| 0 <= j < trace.rows@.len() ==> instruction_valid(#[trigger] trace.rows@[j].instruction),
            forall|j: int| 0 <= j < i ==> #[trigger] out@[j]@ == row_of(trace.rows@[j]),
        decreases n - i,
    {
        let row = build_row(&trace.rows[i]);
        out.push(row);
        i = i + 1;
    }
    out
}

fn build_row<F: Field>(trace_row: &TraceRow<F>) -> (r: Row<F>)
    requires
        instruction_valid(trace_row.instruction),
    ensures
        r@ == row_of(*trace_row),
{
    proof {
        F::lemma_modulus();
    }
    let registers = trace_row.registers;
    let z = F::zero();
    let mut sel = [z, z, z, z, z, z, z, z];
    sel[trace_row.instruction.opcode_index()] = F::one();

    let mut is_write_r = one_hot(0);
    let mut is_read_a_r = one_hot(0);
    let mut is_read_b_r = one_hot(0);
    let mut addr = F::zero();
    let mut imm = F::zero();

    match trace_row.instruction {
        Instruction::LoadImm { reg, imm: value } => {
            is_write_r = one_hot(reg);
            imm = value;
        },
        Instruction::Load { reg, addr: a } => {
            is_write_r = one_hot(reg);
            addr = F::from_u64(a as u64);
        },
        Instruction::Store { addr: a, reg } => {
            is_read_a_r = one_hot(reg);
            addr = F::from_u64(a as u64);
        },
        Instruction::Add { dst, a, b } => {
            is_write_r = one_hot(dst);
            is_read_a_r = one_hot(a);
            is_read_b_r = one_hot(b);
        },
        Instruction::Mul { dst, a, b } => {
            is_write_r = one_hot(dst);
            is_read_a_r = one_hot(a);
            is_read_b_r = one_hot(b);
        },
        Instruction::Jmp { target } => {
            addr = F::from_u64(target as u64);
        },
        Instruction::Jnz { reg, target } => {
            is_read_a_r = one_hot(reg);
            addr = F::from_u64(target as u64);
        },
        Instruction::Halt => {},
    }

    let mem_read_value = match trace_row.memory_access.read {
        Some((_, v)) => v,
        None => F::zero(),
    };
    let mem_write_value = match trace_row.memory_access.write {
        Some((_, v)) => v,
        None => F::zero(),
    };
    let read_a_val = selected_value(&is_read_a_r, &registers);
    let (jnz_is_zero, jnz_inv) = if read_a_val.is_zero() {
        (F::one(), F::zero())
    } else {
        (F::zero(), read_a_val.inverse().expect("checked nonzero above"))
    };

    let r = Row {
        pc: F::from_u64(trace_row.pc as u64),
        registers,
        sel,
        is_write_r,
        is_read_a_r,
        is_read_b_r,
        addr,
        imm,
        mem_read_value,
        mem_write_value,
        jnz_is_zero,
        jnz_inv,
    };
    proof {
        assert(vals(sel@) =~= unit(opcode_of(trace_row.instruction) as int, NUM_OPCODES as nat));
        vstd::arithmetic::div_mod::lemma_small_mod(0, F::p() as nat);
        assert(r@ == row_of(*trace_row));
    }
    r
}


/// The row that a column vector of values describes.
pub open spec fn columns_view(c: Seq<int>) -> RowView {
    RowView {
        pc: c[0],
        registers: c.subrange(1, 7),
        sel: c.subrange(7, 15),
        is_write_r: c.subrange(15, 21),
        is_read_a_r: c.subrange(21, 27),
        is_read_b_r: c.subrange(27, 33),
        addr: c[33],
        imm: c[34],
        mem_read_value: c[35],
        mem_write_value: c[36],
        jnz_is_zero: c[37],
        jnz_inv: c[38],
    }
}

/// A row's view is the view of its columns.
pub proof fn lemma_columns_view<F: Field>(r: Row<F>)
    ensures
        r@ == columns_view(vals(row_columns(r))),
{
    let c = vals(row_columns(r));
    assert(vals(r.registers@) =~= c.subrange(1, 7));
    assert(vals(r.sel@) =~= c.subrange(7, 15));
    assert(vals(r.is_write_r@) =~= c.subrange(15, 21));
    assert(vals(r.is_read_a_r@) =~= c.subrange(21, 27));
    assert(vals(r.is_read_b_r@) =~= c.subrange(27, 33));
}

/// The columns of a row given as plain values, in their fixed order.
pub open spec fn view_columns(v: RowView) -> Seq<int> {
    seq![v.pc] + v.registers + v.sel + v.is_write_r + v.is_read_a_r + v.is_read_b_r + seq![
        v.addr,
        v.imm,
        v.mem_read_value,
        v.mem_write_value,
        v.jnz_is_zero,
        v.jnz_inv,
    ]
}

/// The values of a row's columns are the columns of its view.
pub proof fn lemma_view_columns<F: Field>(r: Row<F>)
    ensures
        vals(row_columns(r)) == view_columns(r@),
{
    assert(vals(row_columns(r)) =~= view_columns(r@));
}

} // verus!
