use lab6_tac::ast::{BinOp as ABinOp, Expr, Stmt, Type};
use lab6_tac::codegen::CodeGen;
use lab6_tac::interpreter::Interpreter;
use lab6_tac::pipeline::run_pipeline;
use lab6_tac::tac::{Addr, BinOp, Instr};

fn op(dst: Addr, op: BinOp, l: Addr, r: Addr) -> Instr {
    Instr::BinOp { dst, op, left: l, right: r }
}

fn eval(o: BinOp, l: i64, r: i64) -> Option<i64> {
    let mut interp = Interpreter::new();
    interp
        .run(&[op(Addr::Temp(0), o, Addr::IntLit(l), Addr::IntLit(r)), Instr::Return(Addr::Temp(0))])
        .unwrap()
}

#[test]
fn operators_follow_integer_semantics() {
    assert_eq!(eval(BinOp::Add, 2, 3), Some(5));
    assert_eq!(eval(BinOp::Sub, 2, 3), Some(-1));
    assert_eq!(eval(BinOp::Mul, -4, 3), Some(-12));
    assert_eq!(eval(BinOp::Div, 7, 2), Some(3));
    assert_eq!(eval(BinOp::Div, -7, 2), Some(-3));
    assert_eq!(eval(BinOp::Div, 7, -2), Some(-3));
    assert_eq!(eval(BinOp::Div, -7, -2), Some(3));
    assert_eq!(eval(BinOp::Div, i64::MIN, 1), Some(i64::MIN));
    assert_eq!(eval(BinOp::Eq, 2, 2), Some(1));
    assert_eq!(eval(BinOp::Ne, 2, 2), Some(0));
    assert_eq!(eval(BinOp::Lt, 1, 2), Some(1));
    assert_eq!(eval(BinOp::Gt, 1, 2), Some(0));
    assert_eq!(eval(BinOp::Le, 2, 2), Some(1));
    assert_eq!(eval(BinOp::Ge, 1, 2), Some(0));
    assert_eq!(eval(BinOp::And, 5, 0), Some(0));
    assert_eq!(eval(BinOp::And, 5, -1), Some(1));
    assert_eq!(eval(BinOp::Or, 0, 0), Some(0));
    assert_eq!(eval(BinOp::Or, 0, 9), Some(1));
}

#[test]
fn reads_default_to_zero_and_bools_to_numbers() {
    let mut interp = Interpreter::new();
    assert_eq!(interp.run(&[Instr::Return(Addr::Var("never".into()))]).unwrap(), Some(0));
    assert_eq!(interp.run(&[Instr::Return(Addr::BoolLit(true))]).unwrap(), Some(1));
    assert_eq!(interp.run(&[Instr::Return(Addr::BoolLit(false))]).unwrap(), Some(0));
}

#[test]
fn read_after_write_and_temp_name_aliasing() {
    let mut interp = Interpreter::new();
    interp.set_var("x", 9);
    assert_eq!(interp.run(&[Instr::Return(Addr::Var("x".into()))]).unwrap(), Some(9));
    let code = vec![
        Instr::Copy { dst: Addr::Temp(3), src: Addr::IntLit(5) },
        Instr::Return(Addr::Var("t3".into())),
    ];
    assert_eq!(interp.run(&code).unwrap(), Some(5));
}

#[test]
fn running_off_the_end_and_halt_return_none() {
    let mut interp = Interpreter::new();
    assert_eq!(interp.run(&[]).unwrap(), None);
    assert_eq!(interp.run(&[Instr::Copy { dst: Addr::Var("a".into()), src: Addr::IntLit(1) }]).unwrap(), None);
    assert_eq!(interp.run(&[Instr::Halt, Instr::Return(Addr::IntLit(1))]).unwrap(), None);
}

#[test]
fn step_limit_message_names_the_limit() {
    let mut interp = Interpreter::new();
    let code = vec![Instr::Label("L0".into()), Instr::Goto("L0".into())];
    let err = interp.run_with_options(&code, false, 3).unwrap_err();
    assert_eq!(err, "Executie oprita: posibil loop infinit (peste 3 pasi)");
    // exactly as many steps as the limit allows still finishes
    let mut interp2 = Interpreter::new();
    let short = vec![Instr::Label("A".into()), Instr::Return(Addr::IntLit(4))];
    assert_eq!(interp2.run_with_options(&short, false, 2).unwrap(), Some(4));
    assert!(interp2.run_with_options(&short, false, 1).is_err());
}

#[test]
fn jumps_go_to_the_last_definition_of_a_label() {
    let code = vec![
        Instr::Goto("L".into()),
        Instr::Label("L".into()),
        Instr::Return(Addr::IntLit(1)),
        Instr::Label("L".into()),
        Instr::Return(Addr::IntLit(2)),
    ];
    let mut interp = Interpreter::new();
    assert_eq!(interp.run(&code).unwrap(), Some(2));
}

#[test]
fn run_function_unknown_label_is_an_error() {
    let mut interp = Interpreter::new();
    interp.set_var("keep", 1);
    let err = interp.run_function(&[Instr::Halt], "missing").unwrap_err();
    assert_eq!(err, "Functie necunoscuta: missing");
    assert_eq!(interp.run(&[Instr::Return(Addr::Var("keep".into()))]).unwrap(), Some(1));
}

#[test]
fn trace_records_each_step_with_sorted_memory() {
    let code = vec![
        Instr::Copy { dst: Addr::Var("b".into()), src: Addr::IntLit(2) },
        Instr::Copy { dst: Addr::Var("a".into()), src: Addr::IntLit(-1) },
        Instr::Label("L".into()),
        Instr::Return(Addr::Var("a".into())),
    ];
    let mut interp = Interpreter::new();
    assert_eq!(interp.run_trace(&code).unwrap(), Some(-1));
    assert_eq!(
        interp.trace_lines(),
        &vec![
            "step=1 pc=1 mem={b=2}".to_string(),
            "step=2 pc=2 mem={a=-1, b=2}".to_string(),
            "step=3 pc=3 mem={a=-1, b=2}".to_string(),
        ]
    );
    let mut quiet = Interpreter::new();
    quiet.run(&code).unwrap();
    assert!(quiet.trace_lines().is_empty());
}

#[test]
fn codegen_numbers_temporaries_and_labels_in_order() {
    let mut cg = CodeGen::new();
    let e = Expr::If {
        cond: Box::new(Expr::BinOp {
            op: ABinOp::Lt,
            left: Box::new(Expr::Var("a".into())),
            right: Box::new(Expr::IntLit(1)),
        }),
        then_: Box::new(Expr::IntLit(10)),
        else_: Some(Box::new(Expr::IntLit(20))),
    };
    let r = cg.gen_expr(&e);
    assert_eq!(r, Addr::Temp(0));
    let text: Vec<String> = cg.instrs.iter().map(|i| i.display()).collect();
    assert_eq!(
        text,
        vec![
            " t1 = a Lt 1", " if t1 goto L0", " goto L1", "L0:", " t0 = 10", " goto L2", "L1:", " t0 = 20", "L2:",
        ]
    );
    let stats = cg.stats();
    assert_eq!(stats.temporare, 2);
    assert_eq!(stats.etichete, 3);
    assert_eq!(stats.salturi, 3);
    assert_eq!(stats.aritmetice, 0);
}

#[test]
fn codegen_call_copies_arguments_into_slots() {
    let mut cg = CodeGen::new();
    let e = Expr::Call {
        func: "f".into(),
        args: vec![
            Expr::IntLit(1),
            Expr::BinOp { op: ABinOp::Add, left: Box::new(Expr::Var("x".into())), right: Box::new(Expr::IntLit(2)) },
        ],
    };
    let r = cg.gen_expr(&e);
    assert_eq!(r, Addr::Temp(1));
    let text: Vec<String> = cg.instrs.iter().map(|i| i.display()).collect();
    assert_eq!(text, vec![" t0 = x Add 2", " arg0 = 1", " arg1 = t0", " t1 = call_f"]);
    assert_eq!(cg.stats().aritmetice, 1);
}

#[test]
fn codegen_literals_emit_nothing() {
    let mut cg = CodeGen::new();
    assert_eq!(cg.gen_expr(&Expr::FloatLit(2.5f64.to_bits())), Addr::IntLit(0));
    assert_eq!(cg.gen_expr(&Expr::StrLit("s".into())), Addr::IntLit(0));
    assert_eq!(cg.gen_expr(&Expr::BoolLit(true)), Addr::BoolLit(true));
    assert_eq!(cg.gen_expr(&Expr::Var("v".into())), Addr::Var("v".into()));
    assert!(cg.instrs.is_empty());
    let s = cg.stats();
    assert_eq!((s.temporare, s.etichete, s.salturi, s.aritmetice), (0, 0, 0, 0));
}

#[test]
fn codegen_while_loop_shape() {
    let mut cg = CodeGen::new();
    cg.gen_stmt(&Stmt::While { cond: Expr::BoolLit(false), body: vec![Stmt::Let { name: "z".into(), ty: None, init: None }] });
    let text: Vec<String> = cg.instrs.iter().map(|i| i.display()).collect();
    assert_eq!(text, vec!["L0:", " if false goto L1", " goto L2", "L1:", " z = 0", " goto L0", "L2:"]);
}

#[test]
fn pipeline_reports_every_error_in_order() {
    let stmts = vec![
        Stmt::Let { name: "x".into(), ty: Some(Type::Str), init: Some(Expr::IntLit(1)) },
        Stmt::Return(Expr::BoolLit(true)),
    ];
    let err = run_pipeline(&stmts, Type::Int).unwrap_err();
    assert_eq!(
        err,
        vec![
            "Tip incompatibil pentru 'x': asteptat Str, gasit Int".to_string(),
            "Return incompatibil: asteptat Int, gasit Bool".to_string(),
        ]
    );
}

#[test]
fn pipeline_step_limit_is_reported_as_error() {
    let stmts = vec![Stmt::While { cond: Expr::BoolLit(true), body: vec![] }];
    let err = run_pipeline(&stmts, Type::Unit).unwrap_err();
    assert_eq!(err, vec!["Executie oprita: posibil loop infinit (peste 10000 pasi)".to_string()]);
}
