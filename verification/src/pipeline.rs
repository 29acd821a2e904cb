//! The whole pipeline on one function body: type checking first, then code
//! generation, optimisation and interpretation.
use vstd::prelude::*;

use crate::ast::{Stmt, Type, TypeV};
use crate::tac::InstrV;
use crate::checker::{stmts_check, TypeChecker};
use crate::codegen::{stmts_code, stmts_labels, stmts_temps, CodeGen};
use crate::interpreter::{limit_message, run_outcome, Interpreter, Outcome};
use crate::optimize::{folding_defined, optimized};
use crate::symbol_table::{declare_in, push_in, texts, Scopes, Symbol, SymbolV};

verus! {

/// The scopes in which the body of `main` is checked: `main` itself
/// declared globally as a function of no parameters returning `ret`, and an
/// empty scope for the body.
pub open spec fn main_scopes(ret: TypeV) -> Scopes {
    push_in(
        declare_in(
            seq![Map::<Seq<char>, SymbolV>::empty()],
            SymbolV { name: "main"@, ty: TypeV::Fn(seq![], Box::new(ret)), mutable: false },
        ),
    )
}

/// The errors that checking a program whose only function is `main`, with
/// body `body` and return type `ret`, reports.
pub open spec fn main_errors(body: Seq<Stmt>, ret: TypeV) -> Seq<Seq<char>> {
    stmts_check(main_scopes(ret), body, ret).1
}

/// The optimised code of `body`.
pub open spec fn main_code(body: Seq<Stmt>) -> Seq<InstrV> {
    optimized(stmts_code(body, 0, 0))
}

/// How running the optimised code of `body` from an empty memory ends.
pub open spec fn main_outcome(body: Seq<Stmt>) -> Outcome {
    run_outcome(main_code(body), Map::empty(), 0, 10000)
}

/// Type-checks `stmts` as the body of a function `main` returning `ret_ty`;
/// when that reports errors, returns them all. Otherwise generates the code
/// of `stmts`, optimises it and runs it from an empty memory with a limit of
/// 10000 steps, returning what it returns or the step-limit message.
///
/// The body is checked where it stands, in the scopes that checking a
/// program whose only function is `main` opens (`main` registered
/// globally, one scope for its body), rather than being copied into such a
/// program first.
pub fn run_pipeline(stmts: &[Stmt], ret_ty: Type) -> (r: Result<Option<i64>, Vec<String>>)
    requires
        main_errors(stmts@, ret_ty@).len() == 0 ==> {
            &&& stmts_temps(stmts@) <= usize::MAX
            &&& stmts_labels(stmts@) <= usize::MAX
            &&& folding_defined(stmts_code(stmts@, 0, 0))
            &&& !(main_outcome(stmts@) is Fault)
        },
    ensures
        main_errors(stmts@, ret_ty@).len() > 0 ==> r is Err && texts(r->Err_0@) == main_errors(stmts@, ret_ty@),
        main_errors(stmts@, ret_ty@).len() == 0 ==> match main_outcome(stmts@) {
            Outcome::Finished(_, v) => r == Ok::<Option<i64>, Vec<String>>(v),
            Outcome::StepLimit(_) => r is Err && texts(r->Err_0@) == seq![limit_message(10000)],
            Outcome::Fault => false,
        },
{
    let mut checker = TypeChecker::new();
    let no_params: Vec<Type> = Vec::new();
    proof {
        reveal_strlit("main");
        crate::ast::lemma_types_view(no_params@);
    }
    let main_ty = Type::Fn { params: no_params, ret: Box::new(ret_ty.clone()) };
    assert(main_ty@ == TypeV::Fn(seq![], Box::new(ret_ty@)));
    checker.table.declare(Symbol { name: String::from_str("main"), ty: main_ty, mutable: false });
    checker.table.push_scope();
    assert(checker.table.scopes_view() =~= main_scopes(ret_ty@));
    checker.check_stmts(stmts, &ret_ty);
    checker.table.pop_scope();
    if checker.table.has_errors() {
        return Err(checker.table.into_errors());
    }
    let mut cg = CodeGen::new();
    cg.gen_stmts(stmts);
    let optimized = CodeGen::optimize_all(cg.instructions().as_slice());
    let mut interp = Interpreter::new();
    match interp.run(optimized.as_slice()) {
        Ok(v) => Ok(v),
        Err(e) => {
            let mut errors: Vec<String> = Vec::new();
            errors.push(e);
            assert(texts(errors@) =~= seq![errors@[0]@]);
            Err(errors)
        },
    }
}

} // verus!
