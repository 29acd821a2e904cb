use lab6_tac::ast::{BinOp as ABinOp, Expr, Stmt};
use lab6_tac::codegen::CodeGen;
use lab6_tac::interpreter::Interpreter;
use lab6_tac::symbol_table::{Symbol, SymbolTable};
use lab6_tac::ast::Type;
use lab6_tac::tac::{Addr, BinOp, Instr};

fn var(n: &str) -> Expr {
    Expr::Var(n.into())
}

fn bin(op: ABinOp, l: Expr, r: Expr) -> Expr {
    Expr::BinOp { op, left: Box::new(l), right: Box::new(r) }
}

/// Reads a variable of an interpreter's memory by running a `return` of it.
fn read(interp: &mut Interpreter, name: &str) -> Option<i64> {
    interp.run(&[Instr::Return(Addr::Var(name.into()))]).unwrap()
}

/// Counts `i` up to 4, with code after a jump that no run reaches.
fn counting_loop() -> Vec<Instr> {
    vec![
        Instr::Copy { dst: Addr::Var("i".into()), src: Addr::IntLit(0) },
        Instr::Label("top".into()),
        Instr::BinOp { dst: Addr::Temp(0), op: BinOp::Lt, left: Addr::Var("i".into()), right: Addr::IntLit(4) },
        Instr::IfGoto { cond: Addr::Temp(0), label: "body".into() },
        Instr::Goto("end".into()),
        Instr::Copy { dst: Addr::Var("i".into()), src: Addr::IntLit(100) },
        Instr::Label("body".into()),
        Instr::BinOp { dst: Addr::Temp(1), op: BinOp::Add, left: Addr::Var("i".into()), right: Addr::IntLit(1) },
        Instr::Copy { dst: Addr::Var("i".into()), src: Addr::Temp(1) },
        Instr::Goto("top".into()),
        Instr::Return(Addr::IntLit(-1)),
        Instr::Label("end".into()),
        Instr::Copy { dst: Addr::Var("k".into()), src: Addr::IntLit(6) },
        Instr::BinOp { dst: Addr::Temp(2), op: BinOp::Mul, left: Addr::Var("k".into()), right: Addr::IntLit(7) },
        Instr::Return(Addr::Temp(2)),
    ]
}

#[test]
fn a_finished_run_ends_the_same_under_a_larger_limit_or_tracing() {
    let code = counting_loop();
    let mut small = Interpreter::new();
    let mut large = Interpreter::new();
    let r1 = small.run_with_options(&code, false, 40).unwrap();
    let r2 = large.run_with_options(&code, true, 10000).unwrap();
    assert_eq!(r1, Some(42));
    assert_eq!(r1, r2);
    assert_eq!(read(&mut small, "i"), read(&mut large, "i"));
    assert_eq!(read(&mut small, "i"), Some(4));
    let mut too_small = Interpreter::new();
    assert!(too_small.run_with_options(&code, false, 10).is_err());
}

#[test]
fn removing_unreachable_code_keeps_what_a_run_gives() {
    let code = counting_loop();
    let out = CodeGen::optimize_dce(&code);
    assert_eq!(out.len(), code.len() - 2);
    let mut before = Interpreter::new();
    let mut after = Interpreter::new();
    let r1 = before.run_trace(&code).unwrap();
    let r2 = after.run_trace(&out).unwrap();
    assert_eq!(r1, r2);
    assert_eq!(before.trace_lines().len(), after.trace_lines().len());
    for (a, b) in before.trace_lines().iter().zip(after.trace_lines().iter()) {
        assert_eq!(a.split(" mem=").nth(1), b.split(" mem=").nth(1));
    }
    let mut f1 = Interpreter::new();
    let mut f2 = Interpreter::new();
    assert_eq!(f1.run_function(&code, "end").unwrap(), f2.run_function(&out, "end").unwrap());
}

#[test]
fn folding_keeps_what_a_run_gives() {
    let code = counting_loop();
    let out = CodeGen::optimize_constant_folding(&code);
    let mut before = Interpreter::new();
    let mut after = Interpreter::new();
    assert_eq!(before.run_trace(&code).unwrap(), after.run_trace(&out).unwrap());
    assert_eq!(before.trace_lines(), after.trace_lines());
    assert_ne!(
        code.iter().map(|i| i.display()).collect::<Vec<_>>(),
        out.iter().map(|i| i.display()).collect::<Vec<_>>()
    );
}

#[test]
fn generated_expression_code_returns_the_expression_value() {
    // if a < 3 { a + 2 * 3 } else { a - 1 }
    let e = Expr::If {
        cond: Box::new(bin(ABinOp::Lt, var("a"), Expr::IntLit(3))),
        then_: Box::new(bin(ABinOp::Add, var("a"), bin(ABinOp::Mul, Expr::IntLit(2), Expr::IntLit(3)))),
        else_: Some(Box::new(bin(ABinOp::Sub, var("a"), Expr::IntLit(1)))),
    };
    for (a, expected) in [(1, 7), (5, 4), (3, 2), (-10, -4)] {
        let mut cg = CodeGen::new();
        let result = cg.gen_expr(&e);
        let mut code = cg.instrs.clone();
        code.push(Instr::Return(result));
        let mut interp = Interpreter::new();
        interp.set_var("a", a);
        assert_eq!(interp.run(&code).unwrap(), Some(expected));
    }
}

#[test]
fn opening_declaring_and_closing_a_scope_restores_every_lookup() {
    let mut t = SymbolTable::new();
    t.declare(Symbol { name: "x".into(), ty: Type::Int, mutable: true });
    t.push_scope();
    t.declare(Symbol { name: "x".into(), ty: Type::Bool, mutable: false });
    t.declare(Symbol { name: "y".into(), ty: Type::Str, mutable: true });
    t.error("ignored".to_string());
    assert_eq!(t.lookup("x").map(|s| s.ty.clone()), Some(Type::Bool));
    t.pop_scope();
    assert_eq!(t.lookup("x").map(|s| (s.ty.clone(), s.mutable)), Some((Type::Int, true)));
    assert!(t.lookup("y").is_none());
}

#[test]
fn cloned_statements_generate_the_same_code() {
    let s = Stmt::While {
        cond: bin(ABinOp::Gt, var("a"), Expr::IntLit(0)),
        body: vec![
            Stmt::Assign { name: "a".into(), value: bin(ABinOp::Sub, var("a"), Expr::IntLit(1)) },
            Stmt::ExprStmt(Expr::Call { func: "f".into(), args: vec![var("a"), Expr::BoolLit(true)] }),
            Stmt::FnDecl { name: "g".into(), params: vec!["p".into()], body: vec![Stmt::Return(var("p"))] },
        ],
    };
    let copy = s.clone();
    let mut c1 = CodeGen::new();
    let mut c2 = CodeGen::new();
    c1.gen_stmt(&s);
    c2.gen_stmt(&copy);
    let t1: Vec<String> = c1.instrs.iter().map(|i| i.display()).collect();
    let t2: Vec<String> = c2.instrs.iter().map(|i| i.display()).collect();
    assert_eq!(t1, t2);
    assert!(!t1.is_empty());
}

#[test]
fn collapsing_copies_keeps_what_a_finished_run_gives() {
    let code = vec![
        Instr::Copy { dst: Addr::Temp(0), src: Addr::Var("x".into()) },
        Instr::Copy { dst: Addr::Var("y".into()), src: Addr::Temp(0) },
        Instr::BinOp { dst: Addr::Temp(1), op: BinOp::Add, left: Addr::Var("y".into()), right: Addr::IntLit(1) },
        Instr::Return(Addr::Temp(1)),
    ];
    let out = CodeGen::optimize_redundant_temps(&code);
    assert_eq!(out.len(), 3);
    let mut before = Interpreter::new();
    let mut after = Interpreter::new();
    before.set_var("x", 41);
    after.set_var("x", 41);
    assert_eq!(before.run(&code).unwrap(), Some(42));
    assert_eq!(after.run(&out).unwrap(), Some(42));
    assert_eq!(read(&mut before, "y"), read(&mut after, "y"));
    // Only the merged temporary's cell differs.
    assert_eq!(read(&mut before, "t0"), Some(41));
    assert_eq!(read(&mut after, "t0"), Some(0));
}

#[test]
fn dropping_dead_definitions_keeps_what_a_finished_run_gives() {
    let code = vec![
        Instr::Copy { dst: Addr::Temp(0), src: Addr::IntLit(5) },
        Instr::BinOp { dst: Addr::Temp(1), op: BinOp::Mul, left: Addr::IntLit(6), right: Addr::IntLit(7) },
        Instr::Copy { dst: Addr::Var("x".into()), src: Addr::Temp(1) },
        Instr::Return(Addr::Var("x".into())),
    ];
    let out = CodeGen::optimize_dead_temp_defs(&code);
    assert_eq!(out.len(), 3);
    let mut before = Interpreter::new();
    let mut after = Interpreter::new();
    assert_eq!(before.run(&code).unwrap(), after.run(&out).unwrap());
    assert_eq!(read(&mut before, "x"), read(&mut after, "x"));
    assert_eq!(read(&mut after, "x"), Some(42));
}
