use lab6_tac::messages::push_type_text;
use lab6_tac::ast::Type;
use lab6_tac::tac::{Addr, BinOp, Instr};

#[test]
fn addr_display_renders_each_kind() {
    assert_eq!(Addr::Var("result".into()).display(), "result");
    assert_eq!(Addr::Temp(0).display(), "t0");
    assert_eq!(Addr::Temp(1234).display(), "t1234");
    assert_eq!(Addr::IntLit(42).display(), "42");
    assert_eq!(Addr::IntLit(-1).display(), "-1");
    assert_eq!(Addr::IntLit(0).display(), "0");
    assert_eq!(Addr::IntLit(i64::MIN).display(), "-9223372036854775808");
    assert_eq!(Addr::IntLit(i64::MAX).display(), "9223372036854775807");
    assert_eq!(Addr::BoolLit(true).display(), "true");
    assert_eq!(Addr::BoolLit(false).display(), "false");
}

#[test]
fn instr_display_renders_each_kind() {
    let binop = Instr::BinOp {
        dst: Addr::Temp(2),
        op: BinOp::Mul,
        left: Addr::Var("x".into()),
        right: Addr::IntLit(-3),
    };
    assert_eq!(binop.display(), " t2 = x Mul -3");
    assert_eq!(Instr::Copy { dst: Addr::Var("y".into()), src: Addr::BoolLit(true) }.display(), " y = true");
    assert_eq!(Instr::Goto("L0".into()).display(), " goto L0");
    assert_eq!(Instr::IfGoto { cond: Addr::Temp(0), label: "L1".into() }.display(), " if t0 goto L1");
    assert_eq!(Instr::Label("main".into()).display(), "main:");
    assert_eq!(Instr::Return(Addr::IntLit(7)).display(), " return 7");
    assert_eq!(Instr::Halt.display(), " halt");
}

#[test]
fn type_text_matches_debug_form() {
    let f = Type::Fn { params: vec![Type::Int, Type::Bool], ret: Box::new(Type::Unit) };
    let mut s = String::new();
    push_type_text(&mut s, &f);
    assert_eq!(s, "Fn { params: [Int, Bool], ret: Unit }");
    assert_eq!(s, format!("{:?}", f));
    let g = Type::Fn { params: vec![], ret: Box::new(Type::Str) };
    let mut t = String::new();
    push_type_text(&mut t, &g);
    assert_eq!(t, format!("{:?}", g));
    let mut u = String::new();
    push_type_text(&mut u, &Type::Float);
    assert_eq!(u, "Float");
}
