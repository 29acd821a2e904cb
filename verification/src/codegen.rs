//! Generation of three-address code from the AST.
use vstd::prelude::*;

use crate::ast::{BinOp as ABinOp, Expr, FnDecl, Program, Stmt};
use crate::tac::{instrs_view, Addr, AddrV, BinOp as TBinOp, Instr, InstrV};
use crate::text::{decimal, push_decimal};

verus! {

broadcast use vstd::std_specs::vec::group_vec_axioms, vstd::seq::group_seq_axioms;

/// The name of label `n`: `L` followed by its number.
pub open spec fn label_text(n: nat) -> Seq<char> {
    seq!['L'] + decimal(n)
}

/// The TAC operator for an operator of the source language.
pub open spec fn tac_op(op: ABinOp) -> TBinOp {
    match op {
        ABinOp::Add => TBinOp::Add,
        ABinOp::Sub => TBinOp::Sub,
        ABinOp::Mul => TBinOp::Mul,
        ABinOp::Div => TBinOp::Div,
        ABinOp::Eq => TBinOp::Eq,
        ABinOp::Ne => TBinOp::Ne,
        ABinOp::Lt => TBinOp::Lt,
        ABinOp::Gt => TBinOp::Gt,
        ABinOp::Le => TBinOp::Le,
        ABinOp::Ge => TBinOp::Ge,
        ABinOp::And => TBinOp::And,
        ABinOp::Or => TBinOp::Or,
    }
}

/// How many temporaries generating `e` hands out.
pub open spec fn expr_temps(e: Expr) -> nat
    decreases e,
{
    match e {
        Expr::BinOp { op: _, left, right } => expr_temps(*left) + expr_temps(*right) + 1,
        Expr::Call { func: _, args } => {
            proof {
                assert(decreases_to!(args => args@));
            }
            args_temps(args@) + 1
        },
        Expr::If { cond, then_, else_ } => 1 + expr_temps(*cond) + expr_temps(*then_) + match else_ {
            Some(eb) => expr_temps(*eb),
            None => 0,
        },
        _ => 0,
    }
}

/// How many temporaries generating the expressions `s` hands out.
pub open spec fn args_temps(s: Seq<Expr>) -> nat
    decreases s,
{
    if s.len() == 0 {
        0
    } else {
        proof {
            assert(decreases_to!(s => s[0]));
            assert(decreases_to!(s => s.subrange(1, s.len() as int)));
        }
        expr_temps(s[0]) + args_temps(s.drop_first())
    }
}

/// How many labels generating `e` hands out.
pub open spec fn expr_labels(e: Expr) -> nat
    decreases e,
{
    match e {
        Expr::BinOp { op: _, left, right } => expr_labels(*left) + expr_labels(*right),
        Expr::Call { func: _, args } => {
            proof {
                assert(decreases_to!(args => args@));
            }
            args_labels(args@)
        },
        Expr::If { cond, then_, else_ } => 3 + expr_labels(*cond) + expr_labels(*then_) + match else_ {
            Some(eb) => expr_labels(*eb),
            None => 0,
        },
        _ => 0,
    }
}

/// How many labels generating the expressions `s` hands out.
pub open spec fn args_labels(s: Seq<Expr>) -> nat
    decreases s,
{
    if s.len() == 0 {
        0
    } else {
        proof {
            assert(decreases_to!(s => s[0]));
            assert(decreases_to!(s => s.subrange(1, s.len() as int)));
        }
        expr_labels(s[0]) + args_labels(s.drop_first())
    }
}

/// The code generated for `e` when the next free temporary is `t` and the
/// next free label is `lb`.
pub open spec fn expr_code(e: Expr, t: nat, lb: nat) -> Seq<InstrV>
    decreases e,
{
    match e {
        Expr::BinOp { op, left, right } => {
            let t1 = t + expr_temps(*left);
            let lb1 = lb + expr_labels(*left);
            expr_code(*left, t, lb) + expr_code(*right, t1, lb1) + seq![
                InstrV::BinOp {
                    dst: AddrV::Temp((t1 + expr_temps(*right)) as usize),
                    op: tac_op(op),
                    left: expr_result(*left, t, lb),
                    right: expr_result(*right, t1, lb1),
                },
            ]
        },
        Expr::Call { func, args } => {
            proof {
                assert(decreases_to!(args => args@));
            }
            let ta = t + args_temps(args@);
            args_code(args@, t, lb) + arg_copies(args_results(args@, t, lb)) + seq![
                InstrV::Copy { dst: AddrV::Temp(ta as usize), src: AddrV::Var("call_"@ + func@) },
            ]
        },
        Expr::If { cond, then_, else_ } => {
            let result = AddrV::Temp(t as usize);
            let t1 = t + 1;
            let lb1 = lb + 3;
            let t2 = t1 + expr_temps(*cond);
            let lb2 = lb1 + expr_labels(*cond);
            let t3 = t2 + expr_temps(*then_);
            let lb3 = lb2 + expr_labels(*then_);
            expr_code(*cond, t1, lb1) + seq![
                InstrV::IfGoto { cond: expr_result(*cond, t1, lb1), label: label_text(lb) },
                InstrV::Goto(label_text(lb + 1)),
                InstrV::Label(label_text(lb)),
            ] + expr_code(*then_, t2, lb2) + seq![
                InstrV::Copy { dst: result, src: expr_result(*then_, t2, lb2) },
                InstrV::Goto(label_text(lb + 2)),
                InstrV::Label(label_text(lb + 1)),
            ] + match else_ {
                Some(eb) => expr_code(*eb, t3, lb3) + seq![
                    InstrV::Copy { dst: result, src: expr_result(*eb, t3, lb3) },
                ],
                None => seq![],
            } + seq![InstrV::Label(label_text(lb + 2))]
        },
        _ => seq![],
    }
}

/// The address that holds the value of `e` after its code, when the next
/// free temporary is `t` and the next free label is `lb`. Literals stand
/// for themselves (a float or string literal for 0) and a variable for
/// itself.
pub open spec fn expr_result(e: Expr, t: nat, lb: nat) -> AddrV
    decreases e,
{
    match e {
        Expr::IntLit(n) => AddrV::IntLit(n),
        Expr::FloatLit(_) => AddrV::IntLit(0),
        Expr::BoolLit(b) => AddrV::BoolLit(b),
        Expr::StrLit(_) => AddrV::IntLit(0),
        Expr::Var(name) => AddrV::Var(name@),
        Expr::BinOp { op: _, left, right } => AddrV::Temp(
            (t + expr_temps(*left) + expr_temps(*right)) as usize,
        ),
        Expr::Call { func: _, args } => AddrV::Temp((t + args_temps(args@)) as usize),
        Expr::If { .. } => AddrV::Temp(t as usize),
    }
}

/// The code generated for the expressions `s`, one after the other.
pub open spec fn args_code(s: Seq<Expr>, t: nat, lb: nat) -> Seq<InstrV>
    decreases s,
{
    if s.len() == 0 {
        seq![]
    } else {
        proof {
            assert(decreases_to!(s => s[0]));
            assert(decreases_to!(s => s.subrange(1, s.len() as int)));
        }
        expr_code(s[0], t, lb) + args_code(s.drop_first(), t + expr_temps(s[0]), lb + expr_labels(s[0]))
    }
}

/// The addresses of the values of the expressions `s`.
pub open spec fn args_results(s: Seq<Expr>, t: nat, lb: nat) -> Seq<AddrV>
    decreases s,
{
    if s.len() == 0 {
        seq![]
    } else {
        proof {
            assert(decreases_to!(s => s[0]));
            assert(decreases_to!(s => s.subrange(1, s.len() as int)));
        }
        seq![expr_result(s[0], t, lb)] + args_results(
            s.drop_first(),
            t + expr_temps(s[0]),
            lb + expr_labels(s[0]),
        )
    }
}

/// The name of argument slot `i`: `arg` followed by its number.
pub open spec fn arg_text(i: nat) -> Seq<char> {
    "arg"@ + decimal(i)
}

/// The copies of the argument values into the slots `arg0`, `arg1`, ...
pub open spec fn arg_copies(addrs: Seq<AddrV>) -> Seq<InstrV> {
    Seq::new(addrs.len(), |i: int| InstrV::Copy { dst: AddrV::Var(arg_text(i as nat)), src: addrs[i] })
}

/// How many temporaries generating `s` hands out.
pub open spec fn stmt_temps(s: Stmt) -> nat
    decreases s,
{
    match s {
        Stmt::Let { name: _, ty: _, init } => match init {
            Some(e) => expr_temps(e),
            None => 0,
        },
        Stmt::Assign { name: _, value } => expr_temps(value),
        Stmt::Return(e) => expr_temps(e),
        Stmt::ExprStmt(e) => expr_temps(e),
        Stmt::Block(ss) => {
            proof {
                assert(decreases_to!(ss => ss@));
            }
            stmts_temps(ss@)
        },
        Stmt::While { cond, body } => {
            proof {
                assert(decreases_to!(body => body@));
            }
            expr_temps(cond) + stmts_temps(body@)
        },
        Stmt::FnDecl { name: _, params: _, body } => {
            proof {
                assert(decreases_to!(body => body@));
            }
            stmts_temps(body@)
        },
    }
}

/// How many temporaries generating the statements `s` hands out.
pub open spec fn stmts_temps(s: Seq<Stmt>) -> nat
    decreases s,
{
    if s.len() == 0 {
        0
    } else {
        proof {
            assert(decreases_to!(s => s[0]));
            assert(decreases_to!(s => s.subrange(1, s.len() as int)));
        }
        stmt_temps(s[0]) + stmts_temps(s.drop_first())
    }
}

/// How many labels generating `s` hands out.
pub open spec fn stmt_labels(s: Stmt) -> nat
    decreases s,
{
    match s {
        Stmt::Let { name: _, ty: _, init } => match init {
            Some(e) => expr_labels(e),
            None => 0,
        },
        Stmt::Assign { name: _, value } => expr_labels(value),
        Stmt::Return(e) => expr_labels(e),
        Stmt::ExprStmt(e) => expr_labels(e),
        Stmt::Block(ss) => {
            proof {
                assert(decreases_to!(ss => ss@));
            }
            stmts_labels(ss@)
        },
        Stmt::While { cond, body } => {
            proof {
                assert(decreases_to!(body => body@));
            }
            3 + expr_labels(cond) + stmts_labels(body@)
        },
        Stmt::FnDecl { name: _, params: _, body } => {
            proof {
                assert(decreases_to!(body => body@));
            }
            stmts_labels(body@)
        },
    }
}

/// How many labels generating the statements `s` hands out.
pub open spec fn stmts_labels(s: Seq<Stmt>) -> nat
    decreases s,
{
    if s.len() == 0 {
        0
    } else {
        proof {
            assert(decreases_to!(s => s[0]));
            assert(decreases_to!(s => s.subrange(1, s.len() as int)));
        }
        stmt_labels(s[0]) + stmts_labels(s.drop_first())
    }
}

/// The code generated for statement `s` when the next free temporary is `t`
/// and the next free label is `lb`. A `let` without initialiser stores 0; a
/// loop tests its condition at its start label and jumps back there after
/// its body; a nested function is its label, its body and a `halt`.
pub open spec fn stmt_code(s: Stmt, t: nat, lb: nat) -> Seq<InstrV>
    decreases s,
{
    match s {
        Stmt::Let { name, ty: _, init } => match init {
            Some(e) => expr_code(e, t, lb) + seq![
                InstrV::Copy { dst: AddrV::Var(name@), src: expr_result(e, t, lb) },
            ],
            None => seq![InstrV::Copy { dst: AddrV::Var(name@), src: AddrV::IntLit(0) }],
        },
        Stmt::Assign { name, value } => expr_code(value, t, lb) + seq![
            InstrV::Copy { dst: AddrV::Var(name@), src: expr_result(value, t, lb) },
        ],
        Stmt::Return(e) => expr_code(e, t, lb) + seq![InstrV::Return(expr_result(e, t, lb))],
        Stmt::ExprStmt(e) => expr_code(e, t, lb),
        Stmt::Block(ss) => {
            proof {
                assert(decreases_to!(ss => ss@));
            }
            stmts_code(ss@, t, lb)
        },
        Stmt::While { cond, body } => {
            proof {
                assert(decreases_to!(body => body@));
            }
            let lb1 = lb + 3;
            seq![InstrV::Label(label_text(lb))] + expr_code(cond, t, lb1) + seq![
                InstrV::IfGoto { cond: expr_result(cond, t, lb1), label: label_text(lb + 1) },
                InstrV::Goto(label_text(lb + 2)),
                InstrV::Label(label_text(lb + 1)),
            ] + stmts_code(body@, t + expr_temps(cond), lb1 + expr_labels(cond)) + seq![
                InstrV::Goto(label_text(lb)),
                InstrV::Label(label_text(lb + 2)),
            ]
        },
        Stmt::FnDecl { name, params: _, body } => {
            proof {
                assert(decreases_to!(body => body@));
            }
            seq![InstrV::Label(name@)] + stmts_code(body@, t, lb) + seq![InstrV::Halt]
        },
    }
}

/// The code generated for the statements `s`, one after the other.
pub open spec fn stmts_code(s: Seq<Stmt>, t: nat, lb: nat) -> Seq<InstrV>
    decreases s,
{
    if s.len() == 0 {
        seq![]
    } else {
        proof {
            assert(decreases_to!(s => s[0]));
            assert(decreases_to!(s => s.subrange(1, s.len() as int)));
        }
        stmt_code(s[0], t, lb) + stmts_code(s.drop_first(), t + stmt_temps(s[0]), lb + stmt_labels(s[0]))
    }
}

/// How many temporaries generating the functions `fs` hands out.
pub open spec fn fns_temps(fs: Seq<FnDecl>) -> nat
    decreases fs.len(),
{
    if fs.len() == 0 { 0 } else { stmts_temps(fs[0].body@) + fns_temps(fs.drop_first()) }
}

/// How many labels generating the functions `fs` hands out.
pub open spec fn fns_labels(fs: Seq<FnDecl>) -> nat
    decreases fs.len(),
{
    if fs.len() == 0 { 0 } else { stmts_labels(fs[0].body@) + fns_labels(fs.drop_first()) }
}

/// The code generated for the functions `fs`: each one is its name's label,
/// its body and a `halt`.
pub open spec fn fns_code(fs: Seq<FnDecl>, t: nat, lb: nat) -> Seq<InstrV>
    decreases fs.len(),
{
    if fs.len() == 0 {
        seq![]
    } else {
        seq![InstrV::Label(fs[0].name@)] + stmts_code(fs[0].body@, t, lb) + seq![InstrV::Halt]
            + fns_code(fs.drop_first(), t + stmts_temps(fs[0].body@), lb + stmts_labels(fs[0].body@))
    }
}

/// Counts of what a generator has produced.
pub struct CodegenStats {
    /// Temporaries handed out.
    pub temporare: usize,
    /// Labels handed out.
    pub etichete: usize,
    /// Jump instructions (`goto` and `if .. goto`) generated.
    pub salturi: usize,
    /// Arithmetic instructions (`+ - * /`) generated.
    pub aritmetice: usize,
}

/// How many jumps (`goto` and `if .. goto`) `s` holds.
pub open spec fn jump_count(s: Seq<InstrV>) -> nat
    decreases s.len(),
{
    if s.len() == 0 {
        0
    } else {
        (if s.last() is Goto || s.last() is IfGoto { 1nat } else { 0nat }) + jump_count(s.drop_last())
    }
}

/// Whether `i` is an arithmetic operation (`+ - * /`).
pub open spec fn is_arithmetic_instr(i: InstrV) -> bool {
    i matches InstrV::BinOp { op, .. } && (op == TBinOp::Add || op == TBinOp::Sub || op == TBinOp::Mul
        || op == TBinOp::Div)
}

/// How many arithmetic operations `s` holds.
pub open spec fn arithmetic_count(s: Seq<InstrV>) -> nat
    decreases s.len(),
{
    if s.len() == 0 {
        0
    } else {
        (if is_arithmetic_instr(s.last()) { 1nat } else { 0nat }) + arithmetic_count(s.drop_last())
    }
}

proof fn lemma_counts_bounded(s: Seq<InstrV>)
    ensures
        jump_count(s) <= s.len(),
        arithmetic_count(s) <= s.len(),
    decreases s.len(),
{
    if s.len() > 0 {
        lemma_counts_bounded(s.drop_last());
    }
}

/// A code generator: the instructions emitted so far and the counters of
/// temporaries and labels handed out.
pub struct CodeGen {
    /// The instructions generated so far.
    pub instrs: Vec<Instr>,
    temp_count: usize,
    label_count: usize,
}

impl CodeGen {
    /// The models of the instructions generated so far.
    pub closed spec fn code(&self) -> Seq<InstrV> {
        instrs_view(self.instrs@)
    }

    /// How many temporaries have been handed out: `t0` up to this one,
    /// excluded.
    pub closed spec fn temps(&self) -> usize {
        self.temp_count
    }

    /// How many labels have been handed out: `L0` up to this one, excluded.
    pub closed spec fn labels(&self) -> usize {
        self.label_count
    }

    /// The instructions generated so far.
    pub fn instructions(&self) -> (r: &Vec<Instr>)
        ensures
            instrs_view(r@) == self.code(),
    {
        &self.instrs
    }

    /// Hands out a fresh temporary: `t<n>` for the next number `n`.
    fn new_temp(&mut self) -> (a: Addr)
        requires
            old(self).temps() < usize::MAX,
        ensures
            a@ == AddrV::Temp(old(self).temps()),
            final(self).temps() == old(self).temps() + 1,
            final(self).labels() == old(self).labels(),
            final(self).code() == old(self).code(),
    {
        let n = self.temp_count;
        self.temp_count += 1;
        Addr::Temp(n)
    }

    /// Hands out a fresh label: `L<n>` for the next number `n`.
    fn new_label(&mut self) -> (l: String)
        requires
            old(self).labels() < usize::MAX,
        ensures
            l@ == label_text(old(self).labels() as nat),
            final(self).labels() == old(self).labels() + 1,
            final(self).temps() == old(self).temps(),
            final(self).code() == old(self).code(),
    {
        let n = self.label_count;
        self.label_count += 1;
        proof { reveal_strlit("L"); }
        let mut l = String::from_str("L");
        push_decimal(&mut l, n as u64);
        l
    }

    /// Appends an instruction.
    fn emit(&mut self, instr: Instr)
        ensures
            final(self).code() == old(self).code().push(instr@),
            final(self).temps() == old(self).temps(),
            final(self).labels() == old(self).labels(),
    {
        self.instrs.push(instr);
        assert(self.code() =~= old(self).code().push(instr@));
    }

    /// The TAC operator for an operator of the source language.
    fn translate_op(op: &ABinOp) -> (r: TBinOp)
        ensures
            r == tac_op(*op),
    {
        match op {
            ABinOp::Add => TBinOp::Add,
            ABinOp::Sub => TBinOp::Sub,
            ABinOp::Mul => TBinOp::Mul,
            ABinOp::Div => TBinOp::Div,
            ABinOp::Eq => TBinOp::Eq,
            ABinOp::Ne => TBinOp::Ne,
            ABinOp::Lt => TBinOp::Lt,
            ABinOp::Gt => TBinOp::Gt,
            ABinOp::Le => TBinOp::Le,
            ABinOp::Ge => TBinOp::Ge,
            ABinOp::And => TBinOp::And,
            ABinOp::Or => TBinOp::Or,
        }
    }

    /// Generates the code for `expr` and returns the address of its value.
    pub fn gen_expr(&mut self, expr: &Expr) -> (a: Addr)
        requires
            old(self).temps() + expr_temps(*expr) <= usize::MAX,
            old(self).labels() + expr_labels(*expr) <= usize::MAX,
        ensures
            final(self).code() == old(self).code() + expr_code(*expr, old(self).temps() as nat, old(self).labels() as nat),
            a@ == expr_result(*expr, old(self).temps() as nat, old(self).labels() as nat),
            final(self).temps() == old(self).temps() + expr_temps(*expr),
            final(self).labels() == old(self).labels() + expr_labels(*expr),
        decreases expr, 1nat,
    {
        let ghost c0 = self.code();
        match expr {
            Expr::IntLit(n) => {
                assert(c0 + seq![] =~= c0);
                Addr::IntLit(*n)
            },
            Expr::FloatLit(_) => {
                assert(c0 + seq![] =~= c0);
                Addr::IntLit(0)
            },
            Expr::BoolLit(b) => {
                assert(c0 + seq![] =~= c0);
                Addr::BoolLit(*b)
            },
            Expr::StrLit(_) => {
                assert(c0 + seq![] =~= c0);
                Addr::IntLit(0)
            },
            Expr::Var(name) => {
                assert(c0 + seq![] =~= c0);
                Addr::Var(name.clone())
            },
            Expr::BinOp { op, left, right } => {
                let l = self.gen_expr(left);
                let r = self.gen_expr(right);
                let dst = self.new_temp();
                self.emit(Instr::BinOp { dst: dst.clone(), op: Self::translate_op(op), left: l, right: r });
                assert(self.code() =~= c0 + expr_code(*expr, old(self).temps() as nat, old(self).labels() as nat));
                dst
            },
            Expr::Call { .. } => self.gen_call(expr),
            Expr::If { .. } => self.gen_if(expr),
        }
    }

    fn gen_call(&mut self, expr: &Expr) -> (a: Addr)
        requires
            *expr is Call,
            old(self).temps() + expr_temps(*expr) <= usize::MAX,
            old(self).labels() + expr_labels(*expr) <= usize::MAX,
        ensures
            final(self).code() == old(self).code() + expr_code(*expr, old(self).temps() as nat, old(self).labels() as nat),
            a@ == expr_result(*expr, old(self).temps() as nat, old(self).labels() as nat),
            final(self).temps() == old(self).temps() + expr_temps(*expr),
            final(self).labels() == old(self).labels() + expr_labels(*expr),
        decreases expr, 0nat,
    {
        let ghost c0 = self.code();
        let ghost t0 = self.temps() as nat;
        let ghost lb0 = self.labels() as nat;
        match expr {
            Expr::Call { func, args } => {
                let mut arg_addrs: Vec<Addr> = Vec::new();
                let mut i: usize = 0;
                assert(args@.skip(0) =~= args@);
                assert(c0 + seq![] =~= c0);
                #[verifier::loop_isolation(false)]
                while i < args.len()
                    invariant
                        i <= args.len(),
                        self.temps() + args_temps(args@.skip(i as int)) == t0 + args_temps(args@),
                        self.labels() + args_labels(args@.skip(i as int)) == lb0 + args_labels(args@),
                        self.code() + args_code(args@.skip(i as int), self.temps() as nat, self.labels() as nat)
                            == c0 + args_code(args@, t0, lb0),
                        arg_addrs@.map_values(|a: Addr| a@) + args_results(
                            args@.skip(i as int),
                            self.temps() as nat,
                            self.labels() as nat,
                        ) == args_results(args@, t0, lb0),
                    decreases args.len() - i,
                {
                    let ghost c1 = self.code();
                    let ghost t1 = self.temps() as nat;
                    let ghost lb1 = self.labels() as nat;
                    let ghost av = arg_addrs@.map_values(|a: Addr| a@);
                    proof {
                        let rest = args@.skip(i as int);
                        assert(rest.drop_first() =~= args@.skip(i + 1));
                        assert(rest[0] == args@[i as int]);
                    }
                    assert(decreases_to!(*expr => args@[i as int]));
                    let a = self.gen_expr(&args[i]);
                    arg_addrs.push(a);
                    proof {
                        let r0 = args@[i as int];
                        assert(c1 + (expr_code(r0, t1, lb1) + args_code(args@.skip(i + 1), self.temps() as nat, self.labels() as nat))
                            =~= (c1 + expr_code(r0, t1, lb1)) + args_code(args@.skip(i + 1), self.temps() as nat, self.labels() as nat));
                        assert(arg_addrs@.map_values(|a: Addr| a@) =~= av.push(expr_result(r0, t1, lb1)));
                        assert(av + (seq![expr_result(r0, t1, lb1)] + args_results(args@.skip(i + 1), self.temps() as nat, self.labels() as nat))
                            =~= av.push(expr_result(r0, t1, lb1)) + args_results(args@.skip(i + 1), self.temps() as nat, self.labels() as nat));
                    }
                    i += 1;
                }
                proof {
                    assert(args@.skip(i as int) =~= seq![]);
                    assert(self.code() + seq![] =~= self.code());
                    assert(arg_addrs@.map_values(|a: Addr| a@) + seq![] =~= arg_addrs@.map_values(|a: Addr| a@));
                }
                let ghost av = arg_addrs@.map_values(|a: Addr| a@);
                let ghost c2 = self.code();
                let dst = self.new_temp();
                let mut j: usize = 0;
                assert(arg_copies(av).take(0) =~= seq![]);
                assert(c2 + seq![] =~= c2);
                while j < arg_addrs.len()
                    invariant
                        j <= arg_addrs.len(),
                        av == arg_addrs@.map_values(|a: Addr| a@),
                        self.code() == c2 + arg_copies(av).take(j as int),
                        self.temps() == t0 + args_temps(args@) + 1,
                        self.labels() == lb0 + args_labels(args@),
                    decreases arg_addrs.len() - j,
                {
                    proof { reveal_strlit("arg"); }
                    let mut slot = String::from_str("arg");
                    push_decimal(&mut slot, j as u64);
                    self.emit(Instr::Copy { dst: Addr::Var(slot), src: arg_addrs[j].clone() });
                    assert(self.code() =~= c2 + arg_copies(av).take(j + 1));
                    j += 1;
                }
                assert(arg_copies(av).take(j as int) =~= arg_copies(av));
                let mut callee = String::from_str("call_");
                callee.append(func.as_str());
                self.emit(Instr::Copy { dst: dst.clone(), src: Addr::Var(callee) });
                assert(self.code() =~= c0 + expr_code(*expr, t0, lb0));
                dst
            },
            _ => {
                assert(false);
                Addr::IntLit(0)
            },
        }
    }

    #[verifier::rlimit(40)]
    fn gen_if(&mut self, expr: &Expr) -> (a: Addr)
        requires
            *expr is If,
            old(self).temps() + expr_temps(*expr) <= usize::MAX,
            old(self).labels() + expr_labels(*expr) <= usize::MAX,
        ensures
            final(self).code() == old(self).code() + expr_code(*expr, old(self).temps() as nat, old(self).labels() as nat),
            a@ == expr_result(*expr, old(self).temps() as nat, old(self).labels() as nat),
            final(self).temps() == old(self).temps() + expr_temps(*expr),
            final(self).labels() == old(self).labels() + expr_labels(*expr),
        decreases expr, 0nat,
    {
        let ghost c0 = self.code();
        match expr {
            Expr::If { cond, then_, else_ } => {
                let l_then = self.new_label();
                let l_else = self.new_label();
                let l_end = self.new_label();
                let result = self.new_temp();
                let t_cond = self.gen_expr(cond);
                self.emit(Instr::IfGoto { cond: t_cond, label: l_then.clone() });
                self.emit(Instr::Goto(l_else.clone()));
                self.emit(Instr::Label(l_then));
                let then_val = self.gen_expr(then_);
                self.emit(Instr::Copy { dst: result.clone(), src: then_val });
                self.emit(Instr::Goto(l_end.clone()));
                self.emit(Instr::Label(l_else));
                if let Some(else_expr) = else_ {
                    let else_val = self.gen_expr(else_expr);
                    self.emit(Instr::Copy { dst: result.clone(), src: else_val });
                }
                self.emit(Instr::Label(l_end));
                assert(self.code() =~= c0 + expr_code(*expr, old(self).temps() as nat, old(self).labels() as nat));
                result
            },
            _ => {
                assert(false);
                Addr::IntLit(0)
            },
        }
    }

    /// Generates the code for statement `stmt`.
    pub fn gen_stmt(&mut self, stmt: &Stmt)
        requires
            old(self).temps() + stmt_temps(*stmt) <= usize::MAX,
            old(self).labels() + stmt_labels(*stmt) <= usize::MAX,
        ensures
            final(self).code() == old(self).code() + stmt_code(*stmt, old(self).temps() as nat, old(self).labels() as nat),
            final(self).temps() == old(self).temps() + stmt_temps(*stmt),
            final(self).labels() == old(self).labels() + stmt_labels(*stmt),
        decreases stmt, 1nat,
    {
        let ghost c0 = self.code();
        match stmt {
            Stmt::Let { name, ty: _, init } => {
                let src = match init {
                    Some(expr) => self.gen_expr(expr),
                    None => Addr::IntLit(0),
                };
                self.emit(Instr::Copy { dst: Addr::Var(name.clone()), src });
                assert(self.code() =~= c0 + stmt_code(*stmt, old(self).temps() as nat, old(self).labels() as nat));
            },
            Stmt::Assign { name, value } => {
                let src = self.gen_expr(value);
                self.emit(Instr::Copy { dst: Addr::Var(name.clone()), src });
                assert(self.code() =~= c0 + stmt_code(*stmt, old(self).temps() as nat, old(self).labels() as nat));
            },
            Stmt::Return(expr) => {
                let src = self.gen_expr(expr);
                self.emit(Instr::Return(src));
                assert(self.code() =~= c0 + stmt_code(*stmt, old(self).temps() as nat, old(self).labels() as nat));
            },
            Stmt::ExprStmt(expr) => {
                self.gen_expr(expr);
            },
            Stmt::Block(stmts) => {
                self.gen_stmts(stmts.as_slice());
            },
            Stmt::While { .. } => {
                self.gen_while(stmt);
            },
            Stmt::FnDecl { name, params: _, body } => {
                self.emit(Instr::Label(name.clone()));
                self.gen_stmts(body.as_slice());
                self.emit(Instr::Halt);
                assert(self.code() =~= c0 + stmt_code(*stmt, old(self).temps() as nat, old(self).labels() as nat));
            },
        }
    }

    #[verifier::rlimit(40)]
    fn gen_while(&mut self, stmt: &Stmt)
        requires
            *stmt is While,
            old(self).temps() + stmt_temps(*stmt) <= usize::MAX,
            old(self).labels() + stmt_labels(*stmt) <= usize::MAX,
        ensures
            final(self).code() == old(self).code() + stmt_code(*stmt, old(self).temps() as nat, old(self).labels() as nat),
            final(self).temps() == old(self).temps() + stmt_temps(*stmt),
            final(self).labels() == old(self).labels() + stmt_labels(*stmt),
        decreases stmt, 0nat,
    {
        let ghost c0 = self.code();
        match stmt {
            Stmt::While { cond, body } => {
                let l_start = self.new_label();
                let l_body = self.new_label();
                let l_end = self.new_label();
                self.emit(Instr::Label(l_start.clone()));
                let t_cond = self.gen_expr(cond);
                self.emit(Instr::IfGoto { cond: t_cond, label: l_body.clone() });
                self.emit(Instr::Goto(l_end.clone()));
                self.emit(Instr::Label(l_body));
                self.gen_stmts(body.as_slice());
                self.emit(Instr::Goto(l_start));
                self.emit(Instr::Label(l_end));
                assert(self.code() =~= c0 + stmt_code(*stmt, old(self).temps() as nat, old(self).labels() as nat));
            },
            _ => {
                assert(false);
            },
        }
    }

    /// Generates the code for the statements `stmts`, one after the other.
    pub(crate) fn gen_stmts(&mut self, stmts: &[Stmt])
        requires
            old(self).temps() + stmts_temps(stmts@) <= usize::MAX,
            old(self).labels() + stmts_labels(stmts@) <= usize::MAX,
        ensures
            final(self).code() == old(self).code() + stmts_code(stmts@, old(self).temps() as nat, old(self).labels() as nat),
            final(self).temps() == old(self).temps() + stmts_temps(stmts@),
            final(self).labels() == old(self).labels() + stmts_labels(stmts@),
        decreases stmts@, 0nat,
    {
        let ghost c0 = self.code();
        let ghost t0 = self.temps() as nat;
        let ghost lb0 = self.labels() as nat;
        let mut i: usize = 0;
        assert(stmts@.skip(0) =~= stmts@);
        assert(c0 + seq![] =~= c0);
        while i < stmts.len()
            invariant
                i <= stmts.len(),
                t0 + stmts_temps(stmts@) <= usize::MAX,
                lb0 + stmts_labels(stmts@) <= usize::MAX,
                self.temps() + stmts_temps(stmts@.skip(i as int)) == t0 + stmts_temps(stmts@),
                self.labels() + stmts_labels(stmts@.skip(i as int)) == lb0 + stmts_labels(stmts@),
                self.code() + stmts_code(stmts@.skip(i as int), self.temps() as nat, self.labels() as nat)
                    == c0 + stmts_code(stmts@, t0, lb0),
            decreases stmts.len() - i,
        {
            let ghost c1 = self.code();
            let ghost t1 = self.temps() as nat;
            let ghost lb1 = self.labels() as nat;
            proof {
                let rest = stmts@.skip(i as int);
                assert(rest.drop_first() =~= stmts@.skip(i + 1));
                assert(rest[0] == stmts@[i as int]);
            }
            assert(decreases_to!(stmts@ => stmts@[i as int]));
            self.gen_stmt(&stmts[i]);
            proof {
                let r0 = stmts@[i as int];
                assert(c1 + (stmt_code(r0, t1, lb1) + stmts_code(stmts@.skip(i + 1), self.temps() as nat, self.labels() as nat))
                    =~= (c1 + stmt_code(r0, t1, lb1)) + stmts_code(stmts@.skip(i + 1), self.temps() as nat, self.labels() as nat));
            }
            i += 1;
        }
        assert(stmts@.skip(i as int) =~= seq![]);
        assert(self.code() + seq![] =~= self.code());
    }

    /// Generates the code for every function of `program`: its label, its
    /// body and a `halt`.
    pub fn gen_program(&mut self, program: &Program)
        requires
            old(self).temps() + fns_temps(program.functions@) <= usize::MAX,
            old(self).labels() + fns_labels(program.functions@) <= usize::MAX,
        ensures
            final(self).code() == old(self).code() + fns_code(program.functions@, old(self).temps() as nat, old(self).labels() as nat),
            final(self).temps() == old(self).temps() + fns_temps(program.functions@),
            final(self).labels() == old(self).labels() + fns_labels(program.functions@),
    {
        let fs = &program.functions;
        let ghost c0 = self.code();
        let ghost t0 = self.temps() as nat;
        let ghost lb0 = self.labels() as nat;
        let mut i: usize = 0;
        assert(fs@.skip(0) =~= fs@);
        assert(c0 + seq![] =~= c0);
        while i < fs.len()
            invariant
                i <= fs.len(),
                t0 + fns_temps(fs@) <= usize::MAX,
                lb0 + fns_labels(fs@) <= usize::MAX,
                self.temps() + fns_temps(fs@.skip(i as int)) == t0 + fns_temps(fs@),
                self.labels() + fns_labels(fs@.skip(i as int)) == lb0 + fns_labels(fs@),
                self.code() + fns_code(fs@.skip(i as int), self.temps() as nat, self.labels() as nat)
                    == c0 + fns_code(fs@, t0, lb0),
            decreases fs.len() - i,
        {
            let ghost c1 = self.code();
            let ghost t1 = self.temps() as nat;
            let ghost lb1 = self.labels() as nat;
            proof {
                let rest = fs@.skip(i as int);
                assert(rest.drop_first() =~= fs@.skip(i + 1));
                assert(rest[0] == fs@[i as int]);
            }
            let f = &fs[i];
            self.emit(Instr::Label(f.name.clone()));
            self.gen_stmts(f.body.as_slice());
            self.emit(Instr::Halt);
            proof {
                let r0 = fs@[i as int];
                let piece = seq![InstrV::Label(r0.name@)] + stmts_code(r0.body@, t1, lb1) + seq![InstrV::Halt];
                assert(self.code() =~= c1 + piece);
                assert(c1 + (piece + fns_code(fs@.skip(i + 1), self.temps() as nat, self.labels() as nat))
                    =~= (c1 + piece) + fns_code(fs@.skip(i + 1), self.temps() as nat, self.labels() as nat));
            }
            i += 1;
        }
        assert(fs@.skip(i as int) =~= seq![]);
        assert(self.code() + seq![] =~= self.code());
    }

    /// The numbers of temporaries and labels handed out, and of jumps and
    /// arithmetic operations among the instructions.
    pub fn stats(&self) -> (r: CodegenStats)
        ensures
            r.temporare == self.temps(),
            r.etichete == self.labels(),
            r.salturi == jump_count(self.code()),
            r.aritmetice == arithmetic_count(self.code()),
    {
        let mut salturi: usize = 0;
        let mut aritmetice: usize = 0;
        let mut i: usize = 0;
        let ghost c = self.code();
        while i < self.instrs.len()
            invariant
                c == instrs_view(self.instrs@),
                i <= self.instrs.len(),
                salturi == jump_count(c.take(i as int)),
                aritmetice == arithmetic_count(c.take(i as int)),
            decreases self.instrs.len() - i,
        {
            proof {
                assert(c.take(i + 1).drop_last() =~= c.take(i as int));
                lemma_counts_bounded(c.take(i as int));
            }
            match &self.instrs[i] {
                Instr::Goto(_) | Instr::IfGoto { .. } => salturi += 1,
                Instr::BinOp { op, .. } => {
                    if matches!(op, TBinOp::Add | TBinOp::Sub | TBinOp::Mul | TBinOp::Div) {
                        aritmetice += 1;
                    }
                },
                _ => {},
            }
            i += 1;
        }
        assert(c.take(i as int) =~= c);
        CodegenStats {
            temporare: self.temp_count,
            etichete: self.label_count,
            salturi,
            aritmetice,
        }
    }

    /// A generator with no instructions and no temporary or label handed out.
    pub fn new() -> (r: Self)
        ensures
            r.code() == Seq::<InstrV>::empty(),
            r.temps() == 0,
            r.labels() == 0,
    {
        let r = CodeGen { instrs: Vec::new(), temp_count: 0, label_count: 0 };
        assert(r.code() =~= Seq::<InstrV>::empty());
        r
    }
}

} // verus!
