use lab6_tac::ast::{Expr, FnDecl, Program, Stmt, Type};
use lab6_tac::codegen::CodeGen;
use lab6_tac::interpreter::Interpreter;
use lab6_tac::tac::{Addr, BinOp as TBinOp, Instr};

#[test]
fn redundant_temp_optimization_collapses_copy_chain() {
    let input = vec![
        Instr::Copy { dst: Addr::Temp(0), src: Addr::Var("x".into()) },
        Instr::Copy { dst: Addr::Var("y".into()), src: Addr::Temp(0) },
    ];
    let out = CodeGen::optimize_redundant_temps(&input);
    assert_eq!(out.len(), 1);
    match &out[0] {
        Instr::Copy { dst: Addr::Var(y), src: Addr::Var(x) } => {
            assert_eq!(y, "y");
            assert_eq!(x, "x");
        }
        _ => panic!("unexpected optimized instruction"),
    }
}

#[test]
fn constant_folding_turns_binop_into_copy() {
    let input = vec![Instr::BinOp {
        dst: Addr::Temp(0),
        op: TBinOp::Mul,
        left: Addr::IntLit(3),
        right: Addr::IntLit(4),
    }];
    let out = CodeGen::optimize_constant_folding(&input);
    assert_eq!(out.len(), 1);
    match &out[0] {
        Instr::Copy { dst: Addr::Temp(0), src: Addr::IntLit(12) } => {}
        _ => panic!("constant folding did not produce expected copy"),
    }
}

#[test]
fn dce_removes_instructions_after_return_until_label() {
    let input = vec![
        Instr::Return(Addr::IntLit(1)),
        Instr::Copy { dst: Addr::Var("x".into()), src: Addr::IntLit(99) },
        Instr::Label("L1".into()),
        Instr::Copy { dst: Addr::Var("y".into()), src: Addr::IntLit(7) },
    ];
    let out = CodeGen::optimize_dce(&input);
    assert_eq!(out.len(), 3);
    assert!(matches!(out[0], Instr::Return(_)));
    assert!(matches!(out[1], Instr::Label(_)));
    assert!(matches!(out[2], Instr::Copy { .. }));
}

#[test]
fn interpreter_set_var_works_for_max_like_program() {
    let instrs = vec![
        Instr::BinOp {
            dst: Addr::Temp(0),
            op: TBinOp::Gt,
            left: Addr::Var("a".into()),
            right: Addr::Var("b".into()),
        },
        Instr::IfGoto { cond: Addr::Temp(0), label: "L_then".into() },
        Instr::Goto("L_else".into()),
        Instr::Label("L_then".into()),
        Instr::Return(Addr::Var("a".into())),
        Instr::Label("L_else".into()),
        Instr::Return(Addr::Var("b".into())),
    ];
    let mut interp = Interpreter::new();
    interp.set_var("a", 7);
    interp.set_var("b", 3);
    let result = interp.run(&instrs).expect("runtime should succeed");
    assert_eq!(result, Some(7));
}

#[test]
fn interpreter_detects_infinite_loop() {
    let instrs = vec![Instr::Label("L0".into()), Instr::Goto("L0".into())];
    let mut interp = Interpreter::new();
    let err = interp
        .run_with_options(&instrs, false, 10000)
        .expect_err("should detect infinite loop");
    println!("{}", err);
    assert!(err.contains("loop infinit"));
}

#[test]
fn codegen_supports_stmt_fndecl_with_label_and_halt() {
    let program = Program {
        functions: vec![FnDecl {
            name: "foo".into(),
            params: vec![],
            ret_ty: Type::Int,
            body: vec![Stmt::FnDecl {
                name: "bar".into(),
                params: vec!["a".into()],
                body: vec![Stmt::Return(Expr::IntLit(1))],
            }],
        }],
    };
    let mut cg = CodeGen::new();
    cg.gen_program(&program);
    assert!(matches!(cg.instrs[0], Instr::Label(_)));
    assert!(cg.instrs.iter().any(|i| matches!(i, Instr::Label(name) if name == "bar")));
    assert!(cg.instrs.iter().any(|i| matches!(i, Instr::Halt)));
}

#[test]
fn stmt_fndecl_emits_label_body_halt() {
    let stmt = Stmt::FnDecl {
        name: "inner".into(),
        params: vec!["a".into()],
        body: vec![Stmt::Return(Expr::IntLit(1))],
    };
    let mut cg = CodeGen::new();
    cg.gen_stmt(&stmt);
    assert!(matches!(cg.instrs[0], Instr::Label(_)));
    assert!(matches!(cg.instrs[1], Instr::Return(_)));
    assert!(matches!(cg.instrs[2], Instr::Halt));
}

#[test]
fn interpreter_environment_is_program_level_for_two_functions() {
    let instrs = vec![
        Instr::Label("f_set".into()),
        Instr::Copy { dst: Addr::Var("g".into()), src: Addr::IntLit(41) },
        Instr::Halt,
        Instr::Label("f_inc".into()),
        Instr::BinOp {
            dst: Addr::Temp(0),
            op: TBinOp::Add,
            left: Addr::Var("g".into()),
            right: Addr::IntLit(1),
        },
        Instr::Copy { dst: Addr::Var("g".into()), src: Addr::Temp(0) },
        Instr::Return(Addr::Var("g".into())),
        Instr::Halt,
    ];
    let mut interp = Interpreter::new();
    let r1 = interp.run_function(&instrs, "f_set").expect("f_set should execute");
    assert_eq!(r1, None);
    let r2 = interp.run_function(&instrs, "f_inc").expect("f_inc should execute");
    assert_eq!(r2, Some(42));
}
