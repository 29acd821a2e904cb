use lab6_tac::codegen::CodeGen;
use lab6_tac::tac::{Addr, BinOp, Instr};

fn texts(v: &[Instr]) -> Vec<String> {
    v.iter().map(|i| i.display()).collect()
}

#[test]
fn folding_propagates_known_values_until_a_label() {
    let input = vec![
        Instr::Copy { dst: Addr::Var("x".into()), src: Addr::IntLit(6) },
        Instr::BinOp { dst: Addr::Temp(0), op: BinOp::Div, left: Addr::Var("x".into()), right: Addr::IntLit(-4) },
        Instr::Copy { dst: Addr::Var("y".into()), src: Addr::Temp(0) },
        Instr::Label("L".into()),
        Instr::BinOp { dst: Addr::Temp(1), op: BinOp::Add, left: Addr::Var("x".into()), right: Addr::IntLit(1) },
    ];
    let out = CodeGen::optimize_constant_folding(&input);
    assert_eq!(out.len(), input.len());
    assert_eq!(texts(&out), vec![" x = 6", " t0 = -1", " y = -1", "L:", " t1 = x Add 1"]);
}

#[test]
fn folding_forgets_overwritten_values_and_leaves_bools() {
    let input = vec![
        Instr::Copy { dst: Addr::Var("x".into()), src: Addr::IntLit(1) },
        Instr::Copy { dst: Addr::Var("x".into()), src: Addr::Var("unknown".into()) },
        Instr::BinOp { dst: Addr::Temp(0), op: BinOp::Add, left: Addr::Var("x".into()), right: Addr::IntLit(1) },
        Instr::BinOp { dst: Addr::Temp(1), op: BinOp::And, left: Addr::BoolLit(true), right: Addr::IntLit(1) },
        Instr::BinOp { dst: Addr::Temp(2), op: BinOp::Lt, left: Addr::IntLit(1), right: Addr::IntLit(2) },
    ];
    let out = CodeGen::optimize_constant_folding(&input);
    assert_eq!(texts(&out), vec![" x = 1", " x = unknown", " t0 = x Add 1", " t1 = true And 1", " t2 = 1"]);
}

#[test]
fn collapsing_needs_the_same_temporary() {
    let input = vec![
        Instr::Copy { dst: Addr::Temp(0), src: Addr::IntLit(1) },
        Instr::Copy { dst: Addr::Var("a".into()), src: Addr::Temp(1) },
        Instr::Copy { dst: Addr::Temp(2), src: Addr::Var("b".into()) },
        Instr::Copy { dst: Addr::Var("c".into()), src: Addr::Temp(2) },
        Instr::Halt,
    ];
    let out = CodeGen::optimize_redundant_temps(&input);
    assert_eq!(texts(&out), vec![" t0 = 1", " a = t1", " c = b", " halt"]);
}

#[test]
fn dead_temporary_definitions_are_dropped() {
    let input = vec![
        Instr::BinOp { dst: Addr::Temp(0), op: BinOp::Add, left: Addr::IntLit(1), right: Addr::IntLit(2) },
        Instr::Copy { dst: Addr::Temp(1), src: Addr::IntLit(3) },
        Instr::Copy { dst: Addr::Temp(0), src: Addr::IntLit(4) },
        Instr::Copy { dst: Addr::Var("x".into()), src: Addr::Temp(1) },
        Instr::IfGoto { cond: Addr::Temp(0), label: "L".into() },
        Instr::Copy { dst: Addr::Temp(5), src: Addr::IntLit(9) },
    ];
    let out = CodeGen::optimize_dead_temp_defs(&input);
    assert_eq!(texts(&out), vec![" t1 = 3", " t0 = 4", " x = t1", " if t0 goto L"]);
}

#[test]
fn dce_after_goto_keeps_label_and_tail() {
    let input = vec![
        Instr::Goto("L".into()),
        Instr::Halt,
        Instr::Return(Addr::IntLit(1)),
        Instr::Label("L".into()),
        Instr::Return(Addr::IntLit(2)),
        Instr::Return(Addr::IntLit(3)),
    ];
    let out = CodeGen::optimize_dce(&input);
    assert_eq!(texts(&out), vec![" goto L", "L:", " return 2"]);
}

#[test]
fn all_passes_compose() {
    let input = vec![
        Instr::BinOp { dst: Addr::Temp(0), op: BinOp::Mul, left: Addr::IntLit(3), right: Addr::IntLit(4) },
        Instr::Copy { dst: Addr::Var("x".into()), src: Addr::Temp(0) },
        Instr::Return(Addr::Var("x".into())),
        Instr::Copy { dst: Addr::Var("dead".into()), src: Addr::IntLit(0) },
    ];
    let out = CodeGen::optimize_all(&input);
    assert_eq!(texts(&out), vec![" x = 12", " return x"]);
}
