use zkvm::air_for_isa::{build_rows, one_hot, selected_value, Row, NUM_COLUMNS};
use zkvm::constraints::{boundary_checks, check_trace, first_row_boundary_checks, last_row_boundary_checks, transition_checks};
use zkvm::field::Field;
use zkvm::goldilocks::Goldilocks;
use zkvm::opcode_id;
use zkvm::opcodes::{Instruction, NUM_REGISTERS};
use zkvm::toyfield::ToyField;
use zkvm::trace::{run, run_padded};

fn tf(x: u64) -> ToyField {
    ToyField::from_u64(x)
}

#[test]
fn build_rows_produces_one_row_per_cycle() {
    let program = vec![Instruction::LoadImm { reg: 0, imm: tf(5) }, Instruction::Halt];
    let trace = run_padded(&program, vec![], 4);
    let rows = build_rows(&trace);
    assert_eq!(rows.len(), 4);
}

#[test]
fn loadimm_row_has_expected_selectors() {
    let program = vec![Instruction::LoadImm { reg: 2, imm: tf(7) }, Instruction::Halt];
    let trace = run_padded(&program, vec![], 2);
    let rows = build_rows(&trace);
    assert_eq!(rows[0].sel[opcode_id::LOAD_IMM], ToyField::one());
    assert_eq!(rows[0].is_write_r[2], ToyField::one());
    assert_eq!(rows[0].imm, tf(7));
}

#[test]
fn selected_value_picks_out_the_one_hot_register() {
    let registers = [tf(10), tf(20), tf(30), tf(40), tf(50), tf(60)];
    assert_eq!(selected_value(&one_hot(3), &registers), tf(40));
}

#[test]
fn jnz_is_zero_gadget_matches_the_actual_register_value() {
    let program = vec![
        Instruction::LoadImm { reg: 0, imm: tf(0) },
        Instruction::Jnz { reg: 0, target: 3 },
        Instruction::Halt,
        Instruction::Halt,
    ];
    let trace = run_padded(&program, vec![], 4);
    let rows = build_rows(&trace);
    assert_eq!(rows[1].jnz_is_zero, ToyField::one());
    assert_eq!(rows[1].jnz_inv, ToyField::zero());
}

#[test]
fn jnz_on_nonzero_register_stores_its_inverse() {
    let program = vec![
        Instruction::LoadImm { reg: 0, imm: tf(5) },
        Instruction::Jnz { reg: 0, target: 3 },
        Instruction::Halt,
        Instruction::Halt,
    ];
    let trace = run_padded(&program, vec![], 4);
    let rows = build_rows(&trace);
    assert_eq!(rows[1].jnz_is_zero, ToyField::zero());
    assert_eq!(rows[1].jnz_inv * tf(5), ToyField::one());
}

#[test]
fn to_columns_from_columns_round_trips() {
    let program = vec![
        Instruction::LoadImm { reg: 3, imm: tf(17) },
        Instruction::Store { addr: 5, reg: 3 },
        Instruction::Load { reg: 1, addr: 5 },
        Instruction::Halt,
    ];
    let trace = run_padded(&program, vec![], 8);
    let rows = build_rows(&trace);
    for row in &rows {
        let cols = row.to_columns();
        assert_eq!(cols.len(), NUM_COLUMNS);
        let round_tripped = Row::from_columns(&cols);
        assert_eq!(&round_tripped, row);
    }
}

fn add_program() -> Vec<Instruction<ToyField>> {
    vec![
        Instruction::LoadImm { reg: 0, imm: tf(2) },
        Instruction::LoadImm { reg: 1, imm: tf(3) },
        Instruction::Add { dst: 2, a: 0, b: 1 },
        Instruction::Halt,
    ]
}

fn countdown_loop_program() -> Vec<Instruction<ToyField>> {
    vec![
        Instruction::LoadImm { reg: 0, imm: tf(5) },
        Instruction::LoadImm { reg: 1, imm: -ToyField::one() },
        Instruction::Jnz { reg: 0, target: 4 },
        Instruction::Jmp { target: 6 },
        Instruction::Add { dst: 0, a: 0, b: 1 },
        Instruction::Jmp { target: 2 },
        Instruction::Halt,
    ]
}

#[test]
fn honest_trace_satisfies_every_constraint() {
    let trace = run_padded(&add_program(), vec![], 8);
    let rows = build_rows(&trace);
    assert!(check_trace(&rows).is_ok());
}

#[test]
fn honest_loop_program_satisfies_every_constraint() {
    let trace = run_padded(&countdown_loop_program(), vec![], 32);
    assert_eq!(trace.final_registers[0], ToyField::zero());
    let rows = build_rows(&trace);
    assert!(check_trace(&rows).is_ok());
}

#[test]
fn honest_load_store_trace_satisfies_every_constraint() {
    let program = vec![Instruction::LoadImm { reg: 0, imm: tf(77) }, Instruction::Store { addr: 3, reg: 0 }, Instruction::Load { reg: 1, addr: 3 }, Instruction::Halt];
    let trace = run_padded(&program, vec![], 8);
    let rows = build_rows(&trace);
    assert!(check_trace(&rows).is_ok());
}

#[test]
fn tampered_register_value_breaks_a_constraint() {
    let trace = run_padded(&add_program(), vec![], 8);
    let mut rows = build_rows(&trace);
    rows[2].registers[2] += ToyField::one();
    assert!(check_trace(&rows).is_err());
}

#[test]
fn tampered_opcode_selector_breaks_a_constraint() {
    let trace = run_padded(&add_program(), vec![], 8);
    let mut rows = build_rows(&trace);
    rows[0].sel[opcode_id::MUL] = ToyField::one();
    assert!(check_trace(&rows).is_err());
}

#[test]
fn tampered_pc_breaks_a_constraint() {
    let trace = run_padded(&add_program(), vec![], 8);
    let mut rows = build_rows(&trace);
    rows[1].pc += ToyField::one();
    assert!(check_trace(&rows).is_err());
}

#[test]
fn tampered_memory_write_breaks_a_constraint() {
    let program = vec![Instruction::LoadImm { reg: 0, imm: tf(9) }, Instruction::Store { addr: 1, reg: 0 }, Instruction::Halt];
    let trace = run_padded(&program, vec![], 8);
    let mut rows = build_rows(&trace);
    rows[1].mem_write_value += ToyField::one();
    assert!(check_trace(&rows).is_err());
}

#[test]
fn truncated_trace_without_halt_fails_boundary_check() {
    let trace = run(&add_program(), vec![], 3);
    let rows = build_rows(&trace);
    assert!(check_trace(&rows).is_err());
}

#[test]
fn tampered_write_index_one_hot_breaks_a_constraint() {
    let trace = run_padded(&add_program(), vec![], 8);
    let mut rows = build_rows(&trace);
    rows[0].is_write_r[1] = ToyField::one();
    assert!(check_trace(&rows).is_err());
}

#[test]
fn tampered_read_index_one_hot_redirects_a_read_and_is_caught() {
    let trace = run_padded(&add_program(), vec![], 8);
    let mut rows = build_rows(&trace);
    rows[2].is_read_a_r = one_hot(1);
    assert!(check_trace(&rows).is_err());
}

#[test]
fn retargeting_write_index_to_a_different_valid_one_hot_breaks_the_result() {
    let trace = run_padded(&add_program(), vec![], 8);
    let mut rows = build_rows(&trace);
    rows[0].is_write_r = [ToyField::zero(); NUM_REGISTERS];
    rows[0].is_write_r[1] = ToyField::one();
    assert!(check_trace(&rows).is_err());
}

#[test]
fn extra_padding_rows_still_verify() {
    let trace = run_padded(&add_program(), vec![], 16);
    let rows = build_rows(&trace);
    assert!(check_trace(&rows).is_ok());
}

#[test]
fn check_counts_and_first_failure_message() {
    let trace = run_padded(&add_program(), vec![], 8);
    let mut rows = build_rows(&trace);
    assert_eq!(transition_checks(&rows[0], &rows[1]).len(), 41);
    assert_eq!(first_row_boundary_checks(&rows[0]).len(), 7);
    assert_eq!(last_row_boundary_checks(&rows[7]).len(), 1);
    assert_eq!(boundary_checks(&rows).len(), 8);
    assert!(transition_checks(&rows[0], &rows[1]).iter().all(|c| c.holds()));
    rows[1].pc += ToyField::one();
    let err = check_trace(&rows).unwrap_err();
    assert!(err.contains("pc_transition"));
}

fn fibonacci_program(n: u64) -> Vec<Instruction<ToyField>> {
    vec![
        Instruction::LoadImm { reg: 0, imm: tf(0) },
        Instruction::LoadImm { reg: 1, imm: tf(1) },
        Instruction::LoadImm { reg: 2, imm: tf(n) },
        Instruction::LoadImm { reg: 4, imm: -ToyField::one() },
        Instruction::LoadImm { reg: 5, imm: tf(0) },
        Instruction::Jnz { reg: 2, target: 7 },
        Instruction::Jmp { target: 12 },
        Instruction::Add { dst: 3, a: 0, b: 1 },
        Instruction::Add { dst: 0, a: 1, b: 5 },
        Instruction::Add { dst: 1, a: 3, b: 5 },
        Instruction::Add { dst: 2, a: 2, b: 4 },
        Instruction::Jmp { target: 5 },
        Instruction::Halt,
    ]
}

#[test]
fn fibonacci_trace_satisfies_the_whole_air() {
    let trace = run_padded(&fibonacci_program(10), vec![], 128);
    assert_eq!(trace.final_registers[0], tf(55));
    let rows = build_rows(&trace);
    assert!(check_trace(&rows).is_ok());
}

#[test]
fn squares_trace_satisfies_the_whole_air() {
    let mut program = Vec::new();
    for i in 1..=8u64 {
        program.push(Instruction::LoadImm { reg: 0, imm: tf(i) });
        program.push(Instruction::Mul { dst: 1, a: 0, b: 0 });
        program.push(Instruction::Store { addr: (i - 1) as usize, reg: 1 });
    }
    program.push(Instruction::Halt);
    let trace = run_padded(&program, vec![], 64);
    assert_eq!(trace.final_memory[3], tf(16));
    let rows = build_rows(&trace);
    assert!(check_trace(&rows).is_ok());
}

#[test]
fn power_trace_satisfies_the_whole_air() {
    let program = vec![
        Instruction::LoadImm { reg: 0, imm: tf(1) },
        Instruction::LoadImm { reg: 1, imm: tf(3) },
        Instruction::LoadImm { reg: 2, imm: tf(6) },
        Instruction::LoadImm { reg: 3, imm: -ToyField::one() },
        Instruction::Jnz { reg: 2, target: 6 },
        Instruction::Jmp { target: 9 },
        Instruction::Mul { dst: 0, a: 0, b: 1 },
        Instruction::Add { dst: 2, a: 2, b: 3 },
        Instruction::Jmp { target: 4 },
        Instruction::Halt,
    ];
    let trace = run_padded(&program, vec![], 64);
    assert_eq!(trace.final_registers[0], tf(50));
    let rows = build_rows(&trace);
    assert!(check_trace(&rows).is_ok());
}

#[test]
fn works_over_goldilocks_too() {
    let program: Vec<Instruction<Goldilocks>> = vec![
        Instruction::LoadImm { reg: 0, imm: Goldilocks::from_u64(1000) },
        Instruction::LoadImm { reg: 1, imm: Goldilocks::from_u64(2000) },
        Instruction::Add { dst: 2, a: 0, b: 1 },
        Instruction::Halt,
    ];
    let trace = run_padded(&program, vec![], 8);
    assert_eq!(trace.final_registers[2], Goldilocks::from_u64(3000));
    let rows = build_rows(&trace);
    assert!(check_trace(&rows).is_ok());
}
