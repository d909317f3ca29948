use zkvm::cpu_exports::{demo_program, demo_runs_in_bounds, export_cpu};
use zkvm::opcodes::Instruction;
use zkvm::toy_stark_export::{export_fri, export_polynomial, export_proof};

#[test]
fn demo_program_computes_three_to_the_fourth() {
    let program = demo_program();
    assert_eq!(program.len(), 10);
    assert_eq!(program[9], Instruction::Halt);
    let export = export_cpu(32);
    assert_eq!(export.field_modulus, 97);
    assert_eq!(export.final_registers[0], 81);
    assert_eq!(export.trace.len(), 32);
    assert_eq!(export.air_rows.len(), 32);
    assert_eq!(export.program[0].mnemonic, "loadimm");
    assert_eq!(export.program[3].text, "loadimm r3, 96");
    assert_eq!(export.air_rows[0].opcode_name, "loadimm");
    assert_eq!(export.air_rows[31].opcode_name, "halt");
    assert!(export.air_rows.iter().all(|r| r.transition_checks.len() == 41));
    assert!(export.air_rows[..31].iter().all(|r| r.transition_checks.iter().all(|(_, v)| *v == 0)));
    assert_eq!(export.trace[4].instruction_index, 4);
    assert_eq!(export.final_memory.len(), 16);
}

#[test]
fn polynomial_export_extends_the_progression() {
    let p = export_polynomial();
    assert_eq!(p.trace_values, vec![3, 5, 7, 9, 11, 13, 15, 17]);
    assert_eq!(p.lde_domain.len(), 32);
    assert_eq!(p.lde_evaluations.len(), 32);
    assert_eq!(p.lde_domain[0], 2);
    assert_eq!(p.domain_offset, 2);
    assert!(p.coefficients.len() <= 8);
}

#[test]
fn fri_export_folds_down_to_two_points() {
    let f = export_fri();
    assert_eq!(f.rounds.len(), 5);
    let sizes: Vec<usize> = f.rounds.iter().map(|r| r.domain_size).collect();
    assert_eq!(sizes, vec![32, 16, 8, 4, 2]);
    assert_eq!(f.rounds[0].beta, Some(11));
    assert_eq!(f.rounds[1].beta, Some(78));
    assert_eq!(f.rounds[4].beta, None);
    assert_eq!(f.final_poly_coeffs.len(), 1);
    assert_eq!(f.final_poly_coeffs[0], f.rounds[4].evaluations[0]);
    for r in 0..4 {
        for i in 0..f.rounds[r + 1].domain_size {
            let x = f.rounds[r].domain[i];
            assert_eq!(f.rounds[r + 1].domain[i], x * x % 97);
        }
    }
}

#[test]
fn proof_export_is_accepted() {
    let p = export_proof();
    assert!(p.accepted);
    assert_eq!(p.statement, "a_0=3, a_i+1=a_i+2, trace_len=8");
    assert_eq!(p.end, 17);
    assert_eq!(p.queries.len(), 6);
    assert!(p.queries.iter().all(|q| q.index < 16 && q.trace_path.leaf_index == q.index));
}

#[test]
fn demo_program_halts_within_its_trace_length() {
    assert!(demo_runs_in_bounds(32));
    assert!(demo_runs_in_bounds(23));
}

#[test]
fn demo_program_has_not_halted_after_a_few_cycles() {
    assert!(!demo_runs_in_bounds(5));
    assert!(!demo_runs_in_bounds(0));
}

#[test]
fn proof_export_has_four_fri_roots_and_one_final_coefficient() {
    let p = export_proof();
    assert_eq!(p.fri_layer_roots.len(), 4);
    assert_eq!(p.fri_final_poly_coeffs.len(), 1);
    assert!(p.queries.iter().all(|q| q.trace_path.siblings.len() == 5));
}
