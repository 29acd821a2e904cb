use lab6_tac::ast::{BinOp, Expr, Stmt, Type};
use lab6_tac::codegen::CodeGen;
use lab6_tac::interpreter::Interpreter;
use lab6_tac::pipeline::run_pipeline;
use lab6_tac::tac::{Addr, Instr};

fn two_plus_three_times_four() -> Expr {
    Expr::BinOp {
        op: BinOp::Add,
        left: Box::new(Expr::IntLit(2)),
        right: Box::new(Expr::BinOp {
            op: BinOp::Mul,
            left: Box::new(Expr::IntLit(3)),
            right: Box::new(Expr::IntLit(4)),
        }),
    }
}

#[test]
fn pipeline_expr_from_lab5_shape_runs() {
    let stmts = vec![
        Stmt::Let { name: "x".into(), ty: None, init: Some(two_plus_three_times_four()) },
        Stmt::Return(Expr::Var("x".into())),
    ];
    let result = run_pipeline(&stmts, Type::Int).expect("semantic check should pass");
    assert_eq!(result, Some(14));
}

#[test]
fn pipeline_while_runs_and_returns_expected_value() {
    let stmts = vec![
        Stmt::Let { name: "a".into(), ty: None, init: Some(Expr::IntLit(5)) },
        Stmt::Let { name: "b".into(), ty: None, init: Some(Expr::IntLit(3)) },
        Stmt::While {
            cond: Expr::BinOp {
                op: BinOp::Gt,
                left: Box::new(Expr::Var("a".into())),
                right: Box::new(Expr::Var("b".into())),
            },
            body: vec![Stmt::Assign {
                name: "a".into(),
                value: Expr::BinOp {
                    op: BinOp::Sub,
                    left: Box::new(Expr::Var("a".into())),
                    right: Box::new(Expr::IntLit(1)),
                },
            }],
        },
        Stmt::Return(Expr::Var("a".into())),
    ];
    let result = run_pipeline(&stmts, Type::Int).expect("semantic check should pass");
    assert_eq!(result, Some(3));
}

#[test]
fn semantic_error_stops_pipeline() {
    let stmts = vec![
        Stmt::Let { name: "x".into(), ty: None, init: Some(Expr::BoolLit(true)) },
        Stmt::Return(Expr::Var("x".into())),
    ];
    let err = run_pipeline(&stmts, Type::Int).expect_err("should fail semantic check");
    assert!(err.iter().any(|e| e.contains("Return incompatibil")));
}

#[test]
fn let_without_init_defaults_to_zero() {
    let stmts = vec![
        Stmt::Let { name: "x".into(), ty: None, init: None },
        Stmt::Return(Expr::Var("x".into())),
    ];
    let result = run_pipeline(&stmts, Type::Int).expect("semantic check should pass");
    assert_eq!(result, Some(0));
}

#[test]
fn combined_optimizations_reduce_expr_to_x_eq_14() {
    let stmts = vec![Stmt::Let { name: "x".into(), ty: None, init: Some(two_plus_three_times_four()) }];
    let mut cg = CodeGen::new();
    for s in &stmts {
        cg.gen_stmt(s);
    }
    let out = CodeGen::optimize_all(&cg.instrs);
    assert_eq!(out.len(), 1);
    match &out[0] {
        Instr::Copy { dst: Addr::Var(name), src: Addr::IntLit(14) } => {
            assert_eq!(name, "x");
        }
        _ => panic!("expected x = 14 after combined optimizations"),
    }
}

#[test]
fn interpreter_trace_runs_for_while_to_five() {
    let stmts = vec![
        Stmt::Let { name: "i".into(), ty: None, init: Some(Expr::IntLit(0)) },
        Stmt::While {
            cond: Expr::BinOp {
                op: BinOp::Lt,
                left: Box::new(Expr::Var("i".into())),
                right: Box::new(Expr::IntLit(5)),
            },
            body: vec![Stmt::Assign {
                name: "i".into(),
                value: Expr::BinOp {
                    op: BinOp::Add,
                    left: Box::new(Expr::Var("i".into())),
                    right: Box::new(Expr::IntLit(1)),
                },
            }],
        },
        Stmt::Return(Expr::Var("i".into())),
    ];
    let mut cg = CodeGen::new();
    for s in &stmts {
        cg.gen_stmt(s);
    }
    let mut interp = Interpreter::new();
    let result = interp.run_trace(&cg.instrs).expect("runtime should succeed");
    assert_eq!(result, Some(5));
}

#[test]
fn pipeline_is_semantic_then_codegen() {
    let stmts = vec![
        Stmt::Assign { name: "x".into(), value: Expr::IntLit(1) },
        Stmt::Return(Expr::IntLit(0)),
    ];
    let err = run_pipeline(&stmts, Type::Int).expect_err("semantic check should fail first");
    assert!(err.iter().any(|e| e.contains("Variabila nedeclarata")));
}
