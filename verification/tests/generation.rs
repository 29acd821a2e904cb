use lab6_tac::ast::{BinOp, Expr, Stmt};
use lab6_tac::codegen::CodeGen;
use lab6_tac::tac::{Addr, Instr};

fn var(n: &str) -> Expr {
    Expr::Var(n.into())
}

fn bin(op: BinOp, l: Expr, r: Expr) -> Expr {
    Expr::BinOp { op, left: Box::new(l), right: Box::new(r) }
}

/// A loop whose body holds an `if` expression, a call and a nested block.
fn nested_program() -> Vec<Stmt> {
    vec![
        Stmt::Let { name: "i".into(), ty: None, init: Some(Expr::IntLit(0)) },
        Stmt::While {
            cond: bin(BinOp::Lt, var("i"), Expr::IntLit(3)),
            body: vec![
                Stmt::Assign {
                    name: "i".into(),
                    value: Expr::If {
                        cond: Box::new(bin(BinOp::Eq, var("i"), Expr::IntLit(1))),
                        then_: Box::new(bin(BinOp::Add, var("i"), Expr::IntLit(2))),
                        else_: Some(Box::new(bin(BinOp::Add, var("i"), Expr::IntLit(1)))),
                    },
                },
                Stmt::Block(vec![Stmt::ExprStmt(Expr::Call {
                    func: "f".into(),
                    args: vec![bin(BinOp::Mul, var("i"), var("i")), Expr::IntLit(7)],
                })]),
            ],
        },
        Stmt::Return(bin(BinOp::Sub, var("i"), Expr::IntLit(1))),
    ]
}

#[test]
fn each_statement_writes_only_the_temporaries_it_hands_out() {
    let mut cg = CodeGen::new();
    for s in &nested_program() {
        let first_instr = cg.instrs.len();
        let lo = cg.stats().temporare;
        cg.gen_stmt(s);
        let hi = cg.stats().temporare;
        for instr in &cg.instrs[first_instr..] {
            match instr {
                Instr::BinOp { dst: Addr::Temp(n), .. } | Instr::Copy { dst: Addr::Temp(n), .. } => {
                    assert!(lo <= *n && *n < hi, "t{} outside [{}, {})", n, lo, hi);
                }
                _ => {}
            }
        }
    }
    assert_eq!(cg.stats().temporare, 8);
}

#[test]
fn generated_code_defines_each_label_once() {
    let mut cg = CodeGen::new();
    for s in &nested_program() {
        cg.gen_stmt(s);
    }
    let mut defined: Vec<String> = cg
        .instrs
        .iter()
        .filter_map(|i| match i {
            Instr::Label(l) => Some(l.clone()),
            _ => None,
        })
        .collect();
    defined.sort();
    let stats = cg.stats();
    let mut expected: Vec<String> = (0..stats.etichete).map(|n| format!("L{}", n)).collect();
    expected.sort();
    assert_eq!(stats.etichete, 6);
    assert_eq!(defined, expected);
}
