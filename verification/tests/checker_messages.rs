use lab6_tac::ast::{BinOp, Expr, FnDecl, Program, Stmt, Type};
use lab6_tac::checker::TypeChecker;
use lab6_tac::symbol_table::{Symbol, SymbolTable};

fn var(n: &str) -> Expr {
    Expr::Var(n.into())
}

fn bin(op: BinOp, l: Expr, r: Expr) -> Expr {
    Expr::BinOp { op, left: Box::new(l), right: Box::new(r) }
}

fn check_main(body: Vec<Stmt>, ret: Type) -> Vec<String> {
    let program = Program { functions: vec![FnDecl { name: "main".into(), params: vec![], ret_ty: ret, body }] };
    let mut checker = TypeChecker::new();
    checker.check_program(&program);
    checker.table.errors
}

#[test]
fn literal_types() {
    let mut c = TypeChecker::new();
    assert_eq!(c.check_expr(&Expr::IntLit(1)), Type::Int);
    assert_eq!(c.check_expr(&Expr::FloatLit(1.5f64.to_bits())), Type::Float);
    assert_eq!(c.check_expr(&Expr::BoolLit(false)), Type::Bool);
    assert_eq!(c.check_expr(&Expr::StrLit("s".into())), Type::Str);
    assert!(!c.table.has_errors());
}

#[test]
fn let_with_wrong_declared_type() {
    let errs = check_main(
        vec![Stmt::Let { name: "x".into(), ty: Some(Type::Bool), init: Some(Expr::IntLit(1)) }],
        Type::Unit,
    );
    assert_eq!(errs, vec!["Tip incompatibil pentru 'x': asteptat Bool, gasit Int".to_string()]);
}

#[test]
fn undeclared_variable_read_and_assign() {
    let errs = check_main(
        vec![Stmt::ExprStmt(var("y")), Stmt::Assign { name: "z".into(), value: Expr::IntLit(1) }],
        Type::Unit,
    );
    assert_eq!(errs, vec!["Variabila nedeclarata: 'y'".to_string(), "Variabila nedeclarata: 'z'".to_string()]);
}

#[test]
fn assignment_to_parameter_is_refused() {
    let program = Program {
        functions: vec![FnDecl {
            name: "f".into(),
            params: vec![("p".into(), Type::Int)],
            ret_ty: Type::Unit,
            body: vec![Stmt::Assign { name: "p".into(), value: Expr::BoolLit(true) }],
        }],
    };
    let mut checker = TypeChecker::new();
    checker.check_program(&program);
    assert_eq!(checker.table.errors, vec!["Atribuire invalida: 'p' este imutabila".to_string()]);
}

#[test]
fn assignment_of_other_type() {
    let errs = check_main(
        vec![
            Stmt::Let { name: "x".into(), ty: None, init: Some(Expr::IntLit(1)) },
            Stmt::Assign { name: "x".into(), value: Expr::BoolLit(true) },
        ],
        Type::Unit,
    );
    assert_eq!(errs, vec!["Atribuire invalida pentru 'x': Int = Bool".to_string()]);
}

#[test]
fn return_of_other_type() {
    let errs = check_main(vec![Stmt::Return(Expr::StrLit("a".into()))], Type::Int);
    assert_eq!(errs, vec!["Return incompatibil: asteptat Int, gasit Str".to_string()]);
}

#[test]
fn while_condition_must_be_bool() {
    let errs = check_main(vec![Stmt::While { cond: Expr::IntLit(1), body: vec![] }], Type::Unit);
    assert_eq!(errs, vec!["Conditia while trebuie sa fie Bool, gasit Int".to_string()]);
}

#[test]
fn operator_errors() {
    let mut c = TypeChecker::new();
    assert_eq!(c.check_expr(&bin(BinOp::Add, Expr::IntLit(1), Expr::BoolLit(true))), Type::Int);
    assert_eq!(c.check_expr(&bin(BinOp::Mul, Expr::StrLit("a".into()), Expr::StrLit("b".into()))), Type::Str);
    assert_eq!(c.check_expr(&bin(BinOp::Le, Expr::IntLit(1), Expr::BoolLit(true))), Type::Bool);
    assert_eq!(c.check_expr(&bin(BinOp::And, Expr::IntLit(1), Expr::BoolLit(true))), Type::Bool);
    assert_eq!(c.check_expr(&bin(BinOp::Add, Expr::FloatLit(0), Expr::FloatLit(0))), Type::Float);
    assert_eq!(
        c.table.errors,
        vec![
            "Operatori Add necesita Int sau Float, gasit Int si Bool".to_string(),
            "Operatori Mul necesita Int sau Float, gasit Str si Str".to_string(),
            "Comparatie intre tipuri diferite: Int vs Bool".to_string(),
            "And/Or necesita Bool, gasit Int si Bool".to_string(),
        ]
    );
}

#[test]
fn call_errors() {
    let program = Program {
        functions: vec![
            FnDecl {
                name: "main".into(),
                params: vec![],
                ret_ty: Type::Unit,
                body: vec![
                    Stmt::ExprStmt(Expr::Call { func: "g".into(), args: vec![Expr::IntLit(1)] }),
                    Stmt::ExprStmt(Expr::Call { func: "f".into(), args: vec![] }),
                    Stmt::ExprStmt(Expr::Call { func: "f".into(), args: vec![Expr::BoolLit(true)] }),
                    Stmt::Let { name: "v".into(), ty: None, init: Some(Expr::IntLit(3)) },
                    Stmt::ExprStmt(Expr::Call { func: "v".into(), args: vec![] }),
                    Stmt::Let {
                        name: "ok".into(),
                        ty: Some(Type::Bool),
                        init: Some(Expr::Call { func: "f".into(), args: vec![Expr::IntLit(2)] }),
                    },
                ],
            },
            FnDecl { name: "f".into(), params: vec![("a".into(), Type::Int)], ret_ty: Type::Bool, body: vec![] },
        ],
    };
    let mut checker = TypeChecker::new();
    checker.check_program(&program);
    assert_eq!(
        checker.table.errors,
        vec![
            "Functie nedeclarata: 'g'".to_string(),
            "'f' asteapta 1 argumente, primit 0".to_string(),
            "Argument incorect pentru 'f': asteptat Int, gasit Bool".to_string(),
            "'v' nu este o functie".to_string(),
        ]
    );
}

#[test]
fn if_errors() {
    let mut c = TypeChecker::new();
    let e = Expr::If {
        cond: Box::new(Expr::IntLit(0)),
        then_: Box::new(Expr::IntLit(1)),
        else_: Some(Box::new(Expr::BoolLit(true))),
    };
    assert_eq!(c.check_expr(&e), Type::Int);
    let no_else = Expr::If { cond: Box::new(Expr::BoolLit(true)), then_: Box::new(Expr::StrLit("x".into())), else_: None };
    assert_eq!(c.check_expr(&no_else), Type::Str);
    assert_eq!(
        c.table.errors,
        vec![
            "Conditia if trebuie sa fie Bool, gasit Int".to_string(),
            "Ramurile if/else au tipuri diferite: Int vs Bool".to_string(),
        ]
    );
}

#[test]
fn forward_calls_resolve_after_registration() {
    let program = Program {
        functions: vec![
            FnDecl {
                name: "main".into(),
                params: vec![],
                ret_ty: Type::Int,
                body: vec![Stmt::Return(Expr::Call { func: "later".into(), args: vec![] })],
            },
            FnDecl { name: "later".into(), params: vec![], ret_ty: Type::Int, body: vec![Stmt::Return(Expr::IntLit(1))] },
        ],
    };
    let mut checker = TypeChecker::new();
    checker.check_program(&program);
    assert!(!checker.table.has_errors());
    let sym = checker.table.lookup("later").expect("registered");
    assert_eq!(sym.ty, Type::Fn { params: vec![], ret: Box::new(Type::Int) });
    assert!(!sym.mutable);
}

#[test]
fn block_scopes_end_with_the_block() {
    let errs = check_main(
        vec![
            Stmt::Block(vec![Stmt::Let { name: "inner".into(), ty: None, init: None }]),
            Stmt::ExprStmt(var("inner")),
        ],
        Type::Unit,
    );
    assert_eq!(errs, vec!["Variabila nedeclarata: 'inner'".to_string()]);
}

#[test]
fn symbol_table_declare_lookup_push_pop() {
    let mut t = SymbolTable::new();
    t.declare(Symbol { name: "a".into(), ty: Type::Int, mutable: true });
    assert_eq!(t.lookup("a").map(|s| s.ty.clone()), Some(Type::Int));
    t.push_scope();
    assert_eq!(t.lookup("a").map(|s| s.ty.clone()), Some(Type::Int));
    t.declare(Symbol { name: "a".into(), ty: Type::Bool, mutable: false });
    assert_eq!(t.lookup("a").map(|s| s.ty.clone()), Some(Type::Bool));
    t.pop_scope();
    assert_eq!(t.lookup("a").map(|s| s.ty.clone()), Some(Type::Int));
    t.pop_scope();
    t.pop_scope();
    assert_eq!(t.lookup("a").map(|s| s.ty.clone()), Some(Type::Int));
    t.declare(Symbol { name: "b".into(), ty: Type::Str, mutable: true });
    assert!(t.lookup("b").is_some());
    assert!(t.lookup("c").is_none());
    assert!(!t.has_errors());
    t.error("boom".to_string());
    assert!(t.has_errors());
    assert_eq!(t.errors, vec!["boom".to_string()]);
}

#[test]
fn loop_and_nested_function_scopes_end_with_them() {
    let errs = check_main(
        vec![
            Stmt::While {
                cond: Expr::BoolLit(false),
                body: vec![Stmt::Let { name: "in_loop".into(), ty: None, init: None }],
            },
            Stmt::FnDecl {
                name: "nested".into(),
                params: vec![],
                body: vec![Stmt::Let { name: "in_fn".into(), ty: None, init: None }],
            },
            Stmt::ExprStmt(var("in_loop")),
            Stmt::ExprStmt(var("in_fn")),
        ],
        Type::Unit,
    );
    assert_eq!(
        errs,
        vec!["Variabila nedeclarata: 'in_loop'".to_string(), "Variabila nedeclarata: 'in_fn'".to_string()]
    );
}
