use zkvm::cpu::CpuState;
use zkvm::field::Field;
use zkvm::opcode_id;
use zkvm::opcodes::{validate_instruction, Instruction, MEMORY_SIZE, NUM_OPCODES, NUM_REGISTERS};
use zkvm::toyfield::ToyField;
use zkvm::trace::{run, run_padded};

fn tf(x: u64) -> ToyField {
    ToyField::from_u64(x)
}

#[test]
fn loadimm_sets_register_and_advances_pc() {
    let mut cpu: CpuState<ToyField> = CpuState::new(vec![]);
    cpu.step(&Instruction::LoadImm { reg: 2, imm: tf(42) }, 1);
    assert_eq!(cpu.get_reg(2), tf(42));
    assert_eq!(cpu.pc, 1);
}

#[test]
fn add_and_mul_use_field_arithmetic() {
    let mut cpu: CpuState<ToyField> = CpuState::new(vec![]);
    cpu.step(&Instruction::LoadImm { reg: 0, imm: tf(90) }, 4);
    cpu.step(&Instruction::LoadImm { reg: 1, imm: tf(10) }, 4);
    cpu.step(&Instruction::Add { dst: 2, a: 0, b: 1 }, 4);
    assert_eq!(cpu.get_reg(2), tf(3));
    cpu.step(&Instruction::Mul { dst: 3, a: 0, b: 1 }, 4);
    assert_eq!(cpu.get_reg(3), tf(27));
}

#[test]
fn load_and_store_round_trip_through_memory() {
    let mut cpu: CpuState<ToyField> = CpuState::new(vec![tf(0); 4]);
    cpu.step(&Instruction::LoadImm { reg: 0, imm: tf(55) }, 3);
    let access = cpu.step(&Instruction::Store { addr: 2, reg: 0 }, 3);
    assert_eq!(access.write, Some((2, tf(55))));
    assert_eq!(cpu.memory[2], tf(55));
    let access = cpu.step(&Instruction::Load { reg: 1, addr: 2 }, 3);
    assert_eq!(access.read, Some((2, tf(55))));
    assert_eq!(cpu.get_reg(1), tf(55));
}

#[test]
fn jmp_sets_pc_directly() {
    let mut cpu: CpuState<ToyField> = CpuState::new(vec![]);
    cpu.step(&Instruction::Jmp { target: 3 }, 5);
    assert_eq!(cpu.pc, 3);
}

#[test]
fn jnz_branches_on_nonzero_and_falls_through_on_zero() {
    let mut cpu: CpuState<ToyField> = CpuState::new(vec![]);
    cpu.step(&Instruction::LoadImm { reg: 0, imm: tf(0) }, 5);
    cpu.pc = 0;
    cpu.step(&Instruction::Jnz { reg: 0, target: 4 }, 5);
    assert_eq!(cpu.pc, 1, "zero register must fall through, not branch");
    cpu.step(&Instruction::LoadImm { reg: 0, imm: tf(1) }, 5);
    cpu.pc = 0;
    cpu.step(&Instruction::Jnz { reg: 0, target: 4 }, 5);
    assert_eq!(cpu.pc, 4, "nonzero register must branch");
}

#[test]
fn halt_sets_flag_without_moving_pc() {
    let mut cpu: CpuState<ToyField> = CpuState::new(vec![]);
    cpu.pc = 7;
    cpu.step(&Instruction::Halt, 8);
    assert!(cpu.halted);
    assert_eq!(cpu.pc, 7);
    cpu.step(&Instruction::Halt, 8);
    assert!(cpu.halted);
    assert_eq!(cpu.pc, 7);
}

#[test]
fn short_initial_memory_is_zero_padded() {
    let cpu: CpuState<ToyField> = CpuState::new(vec![tf(1), tf(2)]);
    assert_eq!(cpu.memory.len(), MEMORY_SIZE);
    assert_eq!(cpu.memory[0], tf(1));
    assert_eq!(cpu.memory[2], tf(0));
}

#[test]
fn step_records_no_access_for_register_instructions() {
    let mut cpu: CpuState<ToyField> = CpuState::new(vec![]);
    let access = cpu.step(&Instruction::LoadImm { reg: 0, imm: tf(1) }, 2);
    assert_eq!(access.read, None);
    assert_eq!(access.write, None);
    assert_eq!(cpu.registers[0], tf(1));
    assert!(!cpu.halted);
}

#[test]
fn opcode_indices_are_distinct() {
    let instrs: Vec<Instruction<ToyField>> = vec![
        Instruction::LoadImm { reg: 0, imm: ToyField::from_u64(0) },
        Instruction::Load { reg: 0, addr: 0 },
        Instruction::Store { addr: 0, reg: 0 },
        Instruction::Add { dst: 0, a: 0, b: 0 },
        Instruction::Mul { dst: 0, a: 0, b: 0 },
        Instruction::Jmp { target: 0 },
        Instruction::Jnz { reg: 0, target: 0 },
        Instruction::Halt,
    ];
    let mut indices: Vec<usize> = instrs.iter().map(|i| i.opcode_index()).collect();
    indices.sort();
    indices.dedup();
    assert_eq!(indices.len(), NUM_OPCODES);
}

#[test]
fn validate_catches_out_of_range_register() {
    let bad: Instruction<ToyField> = Instruction::Add { dst: NUM_REGISTERS, a: 0, b: 0 };
    assert!(validate_instruction(&bad).is_err());
    let good: Instruction<ToyField> = Instruction::Add { dst: 0, a: 1, b: 2 };
    assert!(validate_instruction(&good).is_ok());
}

#[test]
fn validate_catches_out_of_range_memory_address() {
    let bad: Instruction<ToyField> = Instruction::Load { reg: 0, addr: MEMORY_SIZE };
    assert!(validate_instruction(&bad).is_err());
}

#[test]
fn validation_error_texts_name_the_operand() {
    let bad: Instruction<ToyField> = Instruction::Add { dst: 0, a: 7, b: 0 };
    assert_eq!(validate_instruction(&bad), Err("register index 7 (in a) out of range 0..6".to_string()));
    let bad_addr: Instruction<ToyField> = Instruction::Store { addr: 20, reg: 0 };
    assert!(validate_instruction(&bad_addr).unwrap_err().contains("20"));
}

#[test]
fn display_matches_mnemonic() {
    let i: Instruction<ToyField> = Instruction::Add { dst: 1, a: 2, b: 3 };
    assert_eq!(i.mnemonic(), "add");
    assert_eq!(i.to_text(), "add     r1, r2, r3");
}

#[test]
fn instruction_text_of_every_kind() {
    assert_eq!(Instruction::LoadImm { reg: 0, imm: tf(5) }.to_text(), "loadimm r0, 5");
    assert_eq!(Instruction::<ToyField>::Halt.to_text(), "halt");
    assert_eq!(Instruction::<ToyField>::Jnz { reg: 2, target: 6 }.mnemonic(), "jnz");
}

#[test]
fn opcode_id_constants_match_opcode_index() {
    assert_eq!(Instruction::<ToyField>::LoadImm { reg: 0, imm: ToyField::from_u64(0) }.opcode_index(), opcode_id::LOAD_IMM);
    assert_eq!(Instruction::<ToyField>::Load { reg: 0, addr: 0 }.opcode_index(), opcode_id::LOAD);
    assert_eq!(Instruction::<ToyField>::Store { addr: 0, reg: 0 }.opcode_index(), opcode_id::STORE);
    assert_eq!(Instruction::<ToyField>::Add { dst: 0, a: 0, b: 0 }.opcode_index(), opcode_id::ADD);
    assert_eq!(Instruction::<ToyField>::Mul { dst: 0, a: 0, b: 0 }.opcode_index(), opcode_id::MUL);
    assert_eq!(Instruction::<ToyField>::Jmp { target: 0 }.opcode_index(), opcode_id::JMP);
    assert_eq!(Instruction::<ToyField>::Jnz { reg: 0, target: 0 }.opcode_index(), opcode_id::JNZ);
    assert_eq!(Instruction::<ToyField>::Halt.opcode_index(), opcode_id::HALT);
}

fn tiny_program() -> Vec<Instruction<ToyField>> {
    vec![
        Instruction::LoadImm { reg: 0, imm: tf(2) },
        Instruction::LoadImm { reg: 1, imm: tf(3) },
        Instruction::Add { dst: 2, a: 0, b: 1 },
        Instruction::Halt,
    ]
}

#[test]
fn run_stops_as_soon_as_halted() {
    let trace = run(&tiny_program(), vec![], 100);
    assert_eq!(trace.rows.len(), 4);
    assert!(trace.halted);
    assert_eq!(trace.final_registers[2], tf(5));
}

#[test]
fn rows_chain_correctly_state_before_matches_previous_after() {
    let trace = run(&tiny_program(), vec![], 100);
    assert_eq!(trace.rows[2].registers[0], tf(2));
    assert_eq!(trace.rows[2].registers[1], tf(3));
    assert_eq!(trace.rows[2].instruction, Instruction::Add { dst: 2, a: 0, b: 1 });
}

#[test]
fn run_padded_fills_remaining_cycles_with_idempotent_halts() {
    let trace = run_padded(&tiny_program(), vec![], 8);
    assert_eq!(trace.rows.len(), 8);
    assert!(trace.halted);
    for row in &trace.rows[3..] {
        assert_eq!(row.instruction, Instruction::Halt);
        assert_eq!(row.pc, 3);
        assert_eq!(row.registers, trace.final_registers);
    }
}

#[test]
fn memory_accesses_are_recorded_on_the_right_rows() {
    let program = vec![
        Instruction::LoadImm { reg: 0, imm: tf(9) },
        Instruction::Store { addr: 5, reg: 0 },
        Instruction::Load { reg: 1, addr: 5 },
        Instruction::Halt,
    ];
    let trace = run(&program, vec![], 10);
    assert_eq!(trace.rows[1].memory_access.write, Some((5, tf(9))));
    assert_eq!(trace.rows[2].memory_access.read, Some((5, tf(9))));
    assert_eq!(trace.rows[0].memory_access.write, None);
}

#[test]
fn pretty_print_lays_out_one_line_per_cycle() {
    let trace = run(&tiny_program(), vec![], 100);
    let text = trace.pretty_print();
    let lines: Vec<&str> = text.lines().collect();
    assert_eq!(lines.len(), 5);
    assert_eq!(lines[0], "cycle   pc  instruction                   registers");
    assert_eq!(lines[3], "    2    2  add     r2, r0, r1            [2, 3, 0, 0, 0, 0]");
}

#[test]
fn register_instructions_run_without_memory() {
    let z = tf(0);
    let mut cpu: CpuState<ToyField> = CpuState { pc: 0, registers: [z; NUM_REGISTERS], memory: vec![], halted: false };
    cpu.step(&Instruction::LoadImm { reg: 0, imm: tf(90) }, 4);
    cpu.step(&Instruction::LoadImm { reg: 1, imm: tf(10) }, 4);
    cpu.step(&Instruction::Add { dst: 2, a: 0, b: 1 }, 4);
    cpu.step(&Instruction::Jmp { target: 3 }, 4);
    cpu.step(&Instruction::Halt, 4);
    assert_eq!(cpu.registers[2], tf(3));
    assert_eq!(cpu.pc, 3);
    assert!(cpu.halted);
    assert!(cpu.memory.is_empty());
}
