//! The type checker: it infers the type of every expression, checks every
//! statement against the declarations in scope, and records an error for
//! each violation found, going on after each one.
use vstd::prelude::*;

use crate::ast::{lemma_types_view, types_equal, types_view, BinOp, Expr, FnDecl, Program, Stmt, Type, TypeV};
use crate::messages;
use crate::symbol_table::{
    declare_in, lookup_in, pop_in, push_in, Scopes, Symbol, SymbolTable, SymbolV,
};

verus! {

broadcast use vstd::std_specs::vec::group_vec_axioms, vstd::seq::group_seq_axioms;

/// Whether `op` is one of `+ - * /`.
pub open spec fn is_arithmetic(op: BinOp) -> bool {
    op == BinOp::Add || op == BinOp::Sub || op == BinOp::Mul || op == BinOp::Div
}

/// Whether `op` is one of `== != < > <= >=`.
pub open spec fn is_comparison(op: BinOp) -> bool {
    op == BinOp::Eq || op == BinOp::Ne || op == BinOp::Lt || op == BinOp::Gt || op == BinOp::Le
        || op == BinOp::Ge
}

/// The type of `e` in `scopes`, and the errors found while checking it, in
/// the order the checker reports them. An undeclared name has type `Unit`;
/// an arithmetic operation has the type of its left operand; an `if` has
/// the type of its `then` branch.
pub open spec fn expr_check(scopes: Scopes, e: Expr) -> (TypeV, Seq<Seq<char>>)
    decreases e,
{
    match e {
        Expr::IntLit(_) => (TypeV::Int, seq![]),
        Expr::FloatLit(_) => (TypeV::Float, seq![]),
        Expr::BoolLit(_) => (TypeV::Bool, seq![]),
        Expr::StrLit(_) => (TypeV::Str, seq![]),
        Expr::Var(name) => match lookup_in(scopes, name@) {
            Some(sym) => (sym.ty, seq![]),
            None => (TypeV::Unit, seq![messages::undeclared_variable_message(name@)]),
        },
        Expr::BinOp { op, left, right } => {
            let (lt, le) = expr_check(scopes, *left);
            let (rt, re) = expr_check(scopes, *right);
            let errs = le + re;
            if is_arithmetic(op) {
                if lt != rt || (lt != TypeV::Int && lt != TypeV::Float) {
                    (lt, errs.push(messages::arithmetic_message(op, lt, rt)))
                } else {
                    (lt, errs)
                }
            } else if is_comparison(op) {
                if lt != rt {
                    (TypeV::Bool, errs.push(messages::comparison_message(lt, rt)))
                } else {
                    (TypeV::Bool, errs)
                }
            } else {
                if lt != TypeV::Bool || rt != TypeV::Bool {
                    (TypeV::Bool, errs.push(messages::logic_message(lt, rt)))
                } else {
                    (TypeV::Bool, errs)
                }
            }
        },
        Expr::Call { func, args } => match lookup_in(scopes, func@) {
            None => (TypeV::Unit, seq![messages::undeclared_function_message(func@)]),
            Some(sym) => match sym.ty {
                TypeV::Fn(params, ret) => {
                    if args.len() != params.len() {
                        (*ret, seq![messages::arity_message(func@, params.len(), args.len() as nat)])
                    } else {
                        proof {
                            assert(decreases_to!(args => args@));
                        }
                        (*ret, args_check(scopes, func@, args@, params))
                    }
                },
                _ => (TypeV::Unit, seq![messages::not_function_message(func@)]),
            },
        },
        Expr::If { cond, then_, else_ } => {
            let (ct, ce) = expr_check(scopes, *cond);
            let e1 = if ct != TypeV::Bool { ce.push(messages::if_condition_message(ct)) } else { ce };
            let (tt, te) = expr_check(scopes, *then_);
            let e2 = e1 + te;
            match else_ {
                Some(eb) => {
                    let (et, ee) = expr_check(scopes, *eb);
                    if tt != et {
                        (tt, (e2 + ee).push(messages::branches_message(tt, et)))
                    } else {
                        (tt, e2 + ee)
                    }
                },
                None => (tt, e2),
            }
        },
    }
}

/// The errors found while checking the arguments `args` of a call of `func`
/// against its parameter types `params`, argument by argument.
pub open spec fn args_check(scopes: Scopes, func: Seq<char>, args: Seq<Expr>, params: Seq<TypeV>) -> Seq<
    Seq<char>,
>
    decreases args,
{
    if args.len() == 0 {
        seq![]
    } else {
        proof {
            assert(decreases_to!(args => args[0]));
            assert(decreases_to!(args => args.subrange(1, args.len() as int)));
        }
        let (at, ae) = expr_check(scopes, args[0]);
        let e = if at != params[0] { ae.push(messages::argument_message(func, params[0], at)) } else { ae };
        e + args_check(scopes, func, args.drop_first(), params.drop_first())
    }
}

/// The scopes after checking statement `s` in `scopes` inside a function
/// returning `ret`, and the errors found. A `let` declares its name in the
/// innermost scope with the type of its initialiser (`Int` when it has
/// none); blocks, loop bodies and nested functions get a scope of their own.
pub open spec fn stmt_check(scopes: Scopes, s: Stmt, ret: TypeV) -> (Scopes, Seq<Seq<char>>)
    decreases s,
{
    match s {
        Stmt::Let { name, ty, init } => {
            let (inferred, e1) = match init {
                Some(ex) => expr_check(scopes, ex),
                None => (TypeV::Int, seq![]),
            };
            let e2 = match ty {
                Some(d) => if inferred != d@ {
                    e1.push(messages::let_mismatch_message(name@, d@, inferred))
                } else {
                    e1
                },
                None => e1,
            };
            (declare_in(scopes, SymbolV { name: name@, ty: inferred, mutable: true }), e2)
        },
        Stmt::Assign { name, value } => match lookup_in(scopes, name@) {
            None => (scopes, seq![messages::undeclared_variable_message(name@)]),
            Some(sym) => if !sym.mutable {
                (scopes, seq![messages::immutable_message(name@)])
            } else {
                let (vt, ve) = expr_check(scopes, value);
                if vt != sym.ty {
                    (scopes, ve.push(messages::assign_mismatch_message(name@, sym.ty, vt)))
                } else {
                    (scopes, ve)
                }
            },
        },
        Stmt::Return(ex) => {
            let (t, es) = expr_check(scopes, ex);
            if t != ret {
                (scopes, es.push(messages::return_mismatch_message(ret, t)))
            } else {
                (scopes, es)
            }
        },
        Stmt::ExprStmt(ex) => (scopes, expr_check(scopes, ex).1),
        Stmt::Block(stmts) => {
            proof {
                assert(decreases_to!(stmts => stmts@));
            }
            let (sc, es) = stmts_check(push_in(scopes), stmts@, ret);
            (pop_in(sc), es)
        },
        Stmt::While { cond, body } => {
            let (ct, ce) = expr_check(scopes, cond);
            let e1 = if ct != TypeV::Bool { ce.push(messages::while_condition_message(ct)) } else { ce };
            proof {
                assert(decreases_to!(body => body@));
            }
            let (sc, es) = stmts_check(push_in(scopes), body@, ret);
            (pop_in(sc), e1 + es)
        },
        Stmt::FnDecl { name: _, params: _, body } => {
            proof {
                assert(decreases_to!(body => body@));
            }
            let (sc, es) = stmts_check(push_in(scopes), body@, TypeV::Unit);
            (pop_in(sc), es)
        },
    }
}

/// Checking a list of statements one after the other.
pub open spec fn stmts_check(scopes: Scopes, s: Seq<Stmt>, ret: TypeV) -> (Scopes, Seq<Seq<char>>)
    decreases s,
{
    if s.len() == 0 {
        (scopes, seq![])
    } else {
        proof {
            assert(decreases_to!(s => s[0]));
            assert(decreases_to!(s => s.subrange(1, s.len() as int)));
        }
        let (sc1, e1) = stmt_check(scopes, s[0], ret);
        let (sc2, e2) = stmts_check(sc1, s.drop_first(), ret);
        (sc2, e1 + e2)
    }
}

/// `scopes` with the parameters `ps` declared, immutable, in order.
pub open spec fn params_declared(scopes: Scopes, ps: Seq<(String, Type)>) -> Scopes
    decreases ps.len(),
{
    if ps.len() == 0 {
        scopes
    } else {
        params_declared(
            declare_in(scopes, SymbolV { name: ps[0].0@, ty: ps[0].1@, mutable: false }),
            ps.drop_first(),
        )
    }
}

/// The type of a function: its parameter types and its return type.
pub open spec fn fn_type(f: FnDecl) -> TypeV {
    TypeV::Fn(Seq::new(f.params@.len(), |i: int| f.params@[i].1@), Box::new(f.ret_ty@))
}

/// Checking function `f`: its parameters and body in a scope of their own.
pub open spec fn fn_check(scopes: Scopes, f: FnDecl) -> (Scopes, Seq<Seq<char>>) {
    let sc1 = params_declared(push_in(scopes), f.params@);
    let (sc2, es) = stmts_check(sc1, f.body@, f.ret_ty@);
    (pop_in(sc2), es)
}

/// `scopes` with every function of `fs` declared, immutable, with its
/// function type, in order.
pub open spec fn functions_registered(scopes: Scopes, fs: Seq<FnDecl>) -> Scopes
    decreases fs.len(),
{
    if fs.len() == 0 {
        scopes
    } else {
        functions_registered(
            declare_in(scopes, SymbolV { name: fs[0].name@, ty: fn_type(fs[0]), mutable: false }),
            fs.drop_first(),
        )
    }
}

/// Checking the functions `fs` one after the other.
pub open spec fn fns_check(scopes: Scopes, fs: Seq<FnDecl>) -> (Scopes, Seq<Seq<char>>)
    decreases fs.len(),
{
    if fs.len() == 0 {
        (scopes, seq![])
    } else {
        let (sc1, e1) = fn_check(scopes, fs[0]);
        let (sc2, e2) = fns_check(sc1, fs.drop_first());
        (sc2, e1 + e2)
    }
}

/// Checking a whole program: every function is declared first, so calls may
/// come before the callee's definition; then each function is checked.
pub open spec fn program_check(scopes: Scopes, p: Program) -> (Scopes, Seq<Seq<char>>) {
    fns_check(functions_registered(scopes, p.functions@), p.functions@)
}

/// The type checker: its symbol table holds the scopes and the errors.
pub struct TypeChecker {
    pub table: SymbolTable,
}

impl TypeChecker {
    /// A checker with one empty scope and no errors.
    pub fn new() -> (r: Self)
        ensures
            r.table.wf(),
            r.table.scopes_view() == seq![Map::<Seq<char>, SymbolV>::empty()],
            r.table.error_texts() == Seq::<Seq<char>>::empty(),
    {
        TypeChecker { table: SymbolTable::new() }
    }

    /// Checks `expr`, reporting the errors found, and returns its type.
    pub fn check_expr(&mut self, expr: &Expr) -> (t: Type)
        requires
            old(self).table.wf(),
        ensures
            final(self).table.wf(),
            final(self).table.scopes_view() == old(self).table.scopes_view(),
            t@ == expr_check(old(self).table.scopes_view(), *expr).0,
            final(self).table.error_texts() == old(self).table.error_texts() + expr_check(
                old(self).table.scopes_view(),
                *expr,
            ).1,
        decreases expr, 1nat,
    {
        let ghost scopes = self.table.scopes_view();
        let ghost errs0 = self.table.error_texts();
        match expr {
            Expr::IntLit(_) => {
                assert(errs0 + seq![] =~= errs0);
                Type::Int
            },
            Expr::FloatLit(_) => {
                assert(errs0 + seq![] =~= errs0);
                Type::Float
            },
            Expr::BoolLit(_) => {
                assert(errs0 + seq![] =~= errs0);
                Type::Bool
            },
            Expr::StrLit(_) => {
                assert(errs0 + seq![] =~= errs0);
                Type::Str
            },
            Expr::Var(name) => {
                match self.table.lookup(name.as_str()) {
                    Some(sym) => {
                        assert(errs0 + seq![] =~= errs0);
                        sym.ty.clone()
                    },
                    None => {
                        self.table.error(messages::undeclared_variable(name));
                        assert(self.table.error_texts() =~= errs0 + expr_check(scopes, *expr).1);
                        Type::Unit
                    },
                }
            },
            Expr::BinOp { .. } => self.check_binop(expr),
            Expr::Call { .. } => self.check_call(expr),
            Expr::If { .. } => self.check_if(expr),
        }
    }
    /// Declares every function of `program` in the current scope, so that
    /// calls may precede the callee's definition.
    pub fn register_functions(&mut self, program: &Program)
        requires
            old(self).table.wf(),
        ensures
            final(self).table.wf(),
            final(self).table.scopes_view() == functions_registered(
                old(self).table.scopes_view(),
                program.functions@,
            ),
            final(self).table.error_texts() == old(self).table.error_texts(),
    {
        let fs = &program.functions;
        let mut i: usize = 0;
        assert(fs@.skip(0) =~= fs@);
        while i < fs.len()
            invariant
                i <= fs.len(),
                self.table.wf(),
                self.table.error_texts() == old(self).table.error_texts(),
                functions_registered(self.table.scopes_view(), fs@.skip(i as int))
                    == functions_registered(old(self).table.scopes_view(), fs@),
            decreases fs.len() - i,
        {
            let f = &fs[i];
            let mut params: Vec<Type> = Vec::new();
            let mut j: usize = 0;
            while j < f.params.len()
                invariant
                    j <= f.params.len(),
                    params@.len() == j,
                    forall|k: int| 0 <= k < j ==> #[trigger] params@[k]@ == f.params@[k].1@,
                decreases f.params.len() - j,
            {
                params.push(f.params[j].1.clone());
                j += 1;
            }
            proof {
                lemma_types_view(params@);
                assert(types_view(params@) =~= Seq::new(f.params@.len(), |k: int| f.params@[k].1@));
                let rest = fs@.skip(i as int);
                assert(rest.drop_first() =~= fs@.skip(i + 1));
                assert(rest[0] == fs@[i as int]);
            }
            let fn_ty = Type::Fn { params, ret: Box::new(f.ret_ty.clone()) };
            self.table.declare(Symbol { name: f.name.clone(), ty: fn_ty, mutable: false });
            i += 1;
        }
        assert(fs@.skip(i as int) =~= seq![]);
    }

    /// Checks a whole program: declares all its functions, then checks
    /// each one.
    pub fn check_program(&mut self, program: &Program)
        requires
            old(self).table.wf(),
        ensures
            final(self).table.wf(),
            final(self).table.scopes_view() == program_check(old(self).table.scopes_view(), *program).0,
            final(self).table.error_texts() == old(self).table.error_texts() + program_check(
                old(self).table.scopes_view(),
                *program,
            ).1,
    {
        self.register_functions(program);
        let fs = &program.functions;
        let ghost sc0 = self.table.scopes_view();
        let ghost target = fns_check(sc0, fs@);
        let ghost errs0 = self.table.error_texts();
        let mut i: usize = 0;
        assert(fs@.skip(0) =~= fs@);
        assert(errs0 + seq![] =~= errs0);
        while i < fs.len()
            invariant
                i <= fs.len(),
                self.table.wf(),
                target == fns_check(sc0, fs@),
                fns_check(self.table.scopes_view(), fs@.skip(i as int)).0 == target.0,
                self.table.error_texts() + fns_check(self.table.scopes_view(), fs@.skip(i as int)).1
                    == errs0 + target.1,
            decreases fs.len() - i,
        {
            let ghost sc = self.table.scopes_view();
            let ghost before = self.table.error_texts();
            proof {
                let rest = fs@.skip(i as int);
                assert(rest.drop_first() =~= fs@.skip(i + 1));
                assert(rest[0] == fs@[i as int]);
            }
            self.check_function(&fs[i]);
            proof {
                let r1 = fn_check(sc, fs@[i as int]);
                let r2 = fns_check(r1.0, fs@.skip(i + 1));
                assert(before + (r1.1 + r2.1) =~= (before + r1.1) + r2.1);
            }
            i += 1;
        }
        assert(fs@.skip(i as int) =~= seq![]);
        assert(self.table.error_texts() + seq![] =~= self.table.error_texts());
    }

    /// Checks one function: its parameters, immutable, and its body in a
    /// scope of their own.
    fn check_function(&mut self, f: &FnDecl)
        requires
            old(self).table.wf(),
        ensures
            final(self).table.wf(),
            final(self).table.scopes_view() == fn_check(old(self).table.scopes_view(), *f).0,
            final(self).table.error_texts() == old(self).table.error_texts() + fn_check(
                old(self).table.scopes_view(),
                *f,
            ).1,
    {
        self.table.push_scope();
        self.declare_params(&f.params);
        self.check_stmts(f.body.as_slice(), &f.ret_ty);
        self.table.pop_scope();
    }

    /// Declares the parameters `params`, immutable, in order.
    fn declare_params(&mut self, params: &Vec<(String, Type)>)
        requires
            old(self).table.wf(),
        ensures
            final(self).table.wf(),
            final(self).table.scopes_view() == params_declared(old(self).table.scopes_view(), params@),
            final(self).table.error_texts() == old(self).table.error_texts(),
    {
        let mut i: usize = 0;
        assert(params@.skip(0) =~= params@);
        while i < params.len()
            invariant
                i <= params.len(),
                self.table.wf(),
                self.table.error_texts() == old(self).table.error_texts(),
                params_declared(self.table.scopes_view(), params@.skip(i as int))
                    == params_declared(old(self).table.scopes_view(), params@),
            decreases params.len() - i,
        {
            proof {
                let rest = params@.skip(i as int);
                assert(rest.drop_first() =~= params@.skip(i + 1));
                assert(rest[0] == params@[i as int]);
            }
            let (name, ty) = &params[i];
            self.table.declare(Symbol { name: name.clone(), ty: ty.clone(), mutable: false });
            i += 1;
        }
        assert(params@.skip(i as int) =~= seq![]);
    }

    /// Checks the statements `stmts` one after the other.
    pub(crate) fn check_stmts(&mut self, stmts: &[Stmt], ret_ty: &Type)
        requires
            old(self).table.wf(),
        ensures
            final(self).table.wf(),
            final(self).table.scopes_view() == stmts_check(old(self).table.scopes_view(), stmts@, ret_ty@).0,
            final(self).table.error_texts() == old(self).table.error_texts() + stmts_check(
                old(self).table.scopes_view(),
                stmts@,
                ret_ty@,
            ).1,
        decreases stmts@, 0nat,
    {
        let ghost target = stmts_check(self.table.scopes_view(), stmts@, ret_ty@);
        let ghost errs0 = self.table.error_texts();
        let mut i: usize = 0;
        assert(stmts@.skip(0) =~= stmts@);
        assert(errs0 + seq![] =~= errs0);
        while i < stmts.len()
            invariant
                i <= stmts.len(),
                self.table.wf(),
                target == stmts_check(old(self).table.scopes_view(), stmts@, ret_ty@),
                errs0 == old(self).table.error_texts(),
                stmts_check(self.table.scopes_view(), stmts@.skip(i as int), ret_ty@).0 == target.0,
                self.table.error_texts() + stmts_check(self.table.scopes_view(), stmts@.skip(i as int), ret_ty@).1
                    == errs0 + target.1,
            decreases stmts.len() - i,
        {
            let ghost sc0 = self.table.scopes_view();
            let ghost before = self.table.error_texts();
            proof {
                let rest = stmts@.skip(i as int);
                assert(rest.drop_first() =~= stmts@.skip(i + 1));
                assert(rest[0] == stmts@[i as int]);
            }
            assert(decreases_to!(stmts@ => stmts@[i as int]));
            self.check_stmt(&stmts[i], ret_ty);
            proof {
                let r1 = stmt_check(sc0, stmts@[i as int], ret_ty@);
                let r2 = stmts_check(r1.0, stmts@.skip(i + 1), ret_ty@);
                assert(before + (r1.1 + r2.1) =~= (before + r1.1) + r2.1);
            }
            i += 1;
        }
        assert(stmts@.skip(i as int) =~= seq![]);
        assert(self.table.error_texts() + seq![] =~= self.table.error_texts());
    }

    /// Checks statement `stmt` inside a function returning `ret_ty`,
    /// reporting the errors found.
    fn check_stmt(&mut self, stmt: &Stmt, ret_ty: &Type)
        requires
            old(self).table.wf(),
        ensures
            final(self).table.wf(),
            final(self).table.scopes_view() == stmt_check(old(self).table.scopes_view(), *stmt, ret_ty@).0,
            final(self).table.error_texts() == old(self).table.error_texts() + stmt_check(
                old(self).table.scopes_view(),
                *stmt,
                ret_ty@,
            ).1,
        decreases stmt, 1nat,
    {
        let ghost scopes = self.table.scopes_view();
        let ghost errs0 = self.table.error_texts();
        match stmt {
            Stmt::Let { name, ty, init } => {
                let inferred = match init {
                    Some(expr) => self.check_expr(expr),
                    None => {
                        assert(errs0 + seq![] =~= errs0);
                        Type::Int
                    },
                };
                if let Some(declared_ty) = ty {
                    if !types_equal(&inferred, declared_ty) {
                        self.table.error(messages::let_mismatch(name, declared_ty, &inferred));
                    }
                }
                let ghost errs1 = self.table.error_texts();
                self.table.declare(Symbol { name: name.clone(), ty: inferred, mutable: true });
                assert(self.table.error_texts() =~= errs0 + stmt_check(scopes, *stmt, ret_ty@).1);
            },
            Stmt::Assign { name, value } => {
                let found = match self.table.lookup(name.as_str()) {
                    Some(s) => Some(s.clone()),
                    None => None,
                };
                match found {
                    None => {
                        self.table.error(messages::undeclared_variable(name));
                    },
                    Some(sym) => {
                        if !sym.mutable {
                            self.table.error(messages::immutable(name));
                        } else {
                            let val_ty = self.check_expr(value);
                            let sym_ty = sym.ty;
                            if !types_equal(&val_ty, &sym_ty) {
                                self.table.error(messages::assign_mismatch(name, &sym_ty, &val_ty));
                            }
                        }
                    },
                }
                assert(self.table.error_texts() =~= errs0 + stmt_check(scopes, *stmt, ret_ty@).1);
            },
            Stmt::Return(expr) => {
                let expr_ty = self.check_expr(expr);
                if !types_equal(&expr_ty, ret_ty) {
                    self.table.error(messages::return_mismatch(ret_ty, &expr_ty));
                }
                assert(self.table.error_texts() =~= errs0 + stmt_check(scopes, *stmt, ret_ty@).1);
            },
            Stmt::ExprStmt(expr) => {
                self.check_expr(expr);
            },
            Stmt::Block(stmts) => {
                self.table.push_scope();
                self.check_stmts(stmts.as_slice(), ret_ty);
                self.table.pop_scope();
            },
            Stmt::While { cond, body } => {
                let cond_ty = self.check_expr(cond);
                if !types_equal(&cond_ty, &Type::Bool) {
                    self.table.error(messages::while_condition(&cond_ty));
                }
                self.table.push_scope();
                self.check_stmts(body.as_slice(), ret_ty);
                self.table.pop_scope();
                assert(self.table.error_texts() =~= errs0 + stmt_check(scopes, *stmt, ret_ty@).1);
            },
            Stmt::FnDecl { name: _, params: _, body } => {
                self.table.push_scope();
                self.check_stmts(body.as_slice(), &Type::Unit);
                self.table.pop_scope();
            },
        }
    }

    fn check_binop(&mut self, expr: &Expr) -> (t: Type)
        requires
            old(self).table.wf(),
            *expr is BinOp,
        ensures
            final(self).table.wf(),
            final(self).table.scopes_view() == old(self).table.scopes_view(),
            t@ == expr_check(old(self).table.scopes_view(), *expr).0,
            final(self).table.error_texts() == old(self).table.error_texts() + expr_check(
                old(self).table.scopes_view(),
                *expr,
            ).1,
        decreases expr, 0nat,
    {
        let ghost scopes = self.table.scopes_view();
        let ghost errs0 = self.table.error_texts();
        match expr {
            Expr::BinOp { op, left, right } => {
                let lt = self.check_expr(left);
                let rt = self.check_expr(right);
                let t = match op {
                    BinOp::Add | BinOp::Sub | BinOp::Mul | BinOp::Div => {
                        if !types_equal(&lt, &rt) || (!types_equal(&lt, &Type::Int) && !types_equal(
                            &lt,
                            &Type::Float,
                        )) {
                            self.table.error(messages::arithmetic(*op, &lt, &rt));
                        }
                        lt
                    },
                    BinOp::Eq | BinOp::Ne | BinOp::Lt | BinOp::Gt | BinOp::Le | BinOp::Ge => {
                        if !types_equal(&lt, &rt) {
                            self.table.error(messages::comparison(&lt, &rt));
                        }
                        Type::Bool
                    },
                    BinOp::And | BinOp::Or => {
                        if !types_equal(&lt, &Type::Bool) || !types_equal(&rt, &Type::Bool) {
                            self.table.error(messages::logic(&lt, &rt));
                        }
                        Type::Bool
                    },
                };
                assert(self.table.error_texts() =~= errs0 + expr_check(scopes, *expr).1);
                t
            },
            _ => {
                assert(false);
                Type::Unit
            },
        }
    }

    fn check_call(&mut self, expr: &Expr) -> (t: Type)
        requires
            old(self).table.wf(),
            *expr is Call,
        ensures
            final(self).table.wf(),
            final(self).table.scopes_view() == old(self).table.scopes_view(),
            t@ == expr_check(old(self).table.scopes_view(), *expr).0,
            final(self).table.error_texts() == old(self).table.error_texts() + expr_check(
                old(self).table.scopes_view(),
                *expr,
            ).1,
        decreases expr, 0nat,
    {
        let ghost scopes = self.table.scopes_view();
        let ghost errs0 = self.table.error_texts();
        match expr {
            Expr::Call { func, args } => {
                let found = match self.table.lookup(func.as_str()) {
                    Some(s) => Some(s.clone()),
                    None => None,
                };
                match found {
                    None => {
                        self.table.error(messages::undeclared_function(func));
                        assert(self.table.error_texts() =~= errs0 + expr_check(scopes, *expr).1);
                        Type::Unit
                    },
                    Some(sym) => {
                        match sym.ty {
                            Type::Fn { params, ret } => {
                                proof {
                                    lemma_types_view(params@);
                                }
                                let ghost pv = types_view(params@);
                                if args.len() != params.len() {
                                    self.table.error(messages::arity(func, params.len(), args.len()));
                                    assert(self.table.error_texts() =~= errs0 + expr_check(scopes, *expr).1);
                                } else {
                                    let mut i: usize = 0;
                                    assert(args@.skip(0) =~= args@);
                                    assert(pv.skip(0) =~= pv);
                                    assert(errs0 + seq![] =~= errs0);
                                    #[verifier::loop_isolation(false)]
                                    while i < args.len()
                                        invariant
                                            i <= args.len(),
                                            self.table.wf(),
                                            self.table.scopes_view() == scopes,
                                            self.table.error_texts() + args_check(
                                                scopes,
                                                func@,
                                                args@.skip(i as int),
                                                pv.skip(i as int),
                                            ) == errs0 + args_check(scopes, func@, args@, pv),
                                        decreases args.len() - i,
                                    {
                                        let ghost before = self.table.error_texts();
                                        assert(decreases_to!(*expr => args@[i as int]));
                                        let at = self.check_expr(&args[i]);
                                        if !types_equal(&at, &params[i]) {
                                            self.table.error(messages::argument(func, &params[i], &at));
                                        }
                                        proof {
                                            let rest = args@.skip(i as int);
                                            let prest = pv.skip(i as int);
                                            assert(rest.drop_first() =~= args@.skip(i + 1));
                                            assert(prest.drop_first() =~= pv.skip(i + 1));
                                            assert(rest[0] == args@[i as int]);
                                            assert(prest[0] == params@[i as int]@);
                                            let e = expr_check(scopes, rest[0]).1;
                                            let e1 = if at@ != prest[0] {
                                                e.push(messages::argument_message(func@, prest[0], at@))
                                            } else {
                                                e
                                            };
                                            assert(self.table.error_texts() =~= before + e1);
                                        }
                                        i += 1;
                                        assert(self.table.error_texts() + args_check(
                                            scopes,
                                            func@,
                                            args@.skip(i as int),
                                            pv.skip(i as int),
                                        ) =~= errs0 + args_check(scopes, func@, args@, pv));
                                    }
                                    assert(args@.skip(i as int) =~= seq![]);
                                    assert(self.table.error_texts() =~= errs0 + expr_check(scopes, *expr).1);
                                }
                                *ret
                            },
                            _ => {
                                self.table.error(messages::not_function(func));
                                assert(self.table.error_texts() =~= errs0 + expr_check(scopes, *expr).1);
                                Type::Unit
                            },
                        }
                    },
                }
            },
            _ => {
                assert(false);
                Type::Unit
            },
        }
    }

    fn check_if(&mut self, expr: &Expr) -> (t: Type)
        requires
            old(self).table.wf(),
            *expr is If,
        ensures
            final(self).table.wf(),
            final(self).table.scopes_view() == old(self).table.scopes_view(),
            t@ == expr_check(old(self).table.scopes_view(), *expr).0,
            final(self).table.error_texts() == old(self).table.error_texts() + expr_check(
                old(self).table.scopes_view(),
                *expr,
            ).1,
        decreases expr, 0nat,
    {
        let ghost scopes = self.table.scopes_view();
        let ghost errs0 = self.table.error_texts();
        match expr {
            Expr::If { cond, then_, else_ } => {
                let cond_ty = self.check_expr(cond);
                if !types_equal(&cond_ty, &Type::Bool) {
                    self.table.error(messages::if_condition(&cond_ty));
                }
                let then_ty = self.check_expr(then_);
                if let Some(else_expr) = else_ {
                    let else_ty = self.check_expr(else_expr);
                    if !types_equal(&then_ty, &else_ty) {
                        self.table.error(messages::branches(&then_ty, &else_ty));
                    }
                }
                assert(self.table.error_texts() =~= errs0 + expr_check(scopes, *expr).1);
                then_ty
            },
            _ => {
                assert(false);
                Type::Unit
            },
        }
    }
}

} // verus!
