//! The text of types and of the type checker's error messages.
use vstd::prelude::*;

use crate::ast::{lemma_types_view, types_view, BinOp, Type, TypeV};
use crate::text::{decimal, push_decimal};

verus! {

/// How a type is printed: `Int`, `Float`, `Bool`, `Str`, `Unit`, or
/// `Fn { params: [..], ret: .. }`.
pub open spec fn type_text(t: TypeV) -> Seq<char>
    decreases t,
{
    match t {
        TypeV::Int => "Int"@,
        TypeV::Float => "Float"@,
        TypeV::Bool => "Bool"@,
        TypeV::Str => "Str"@,
        TypeV::Unit => "Unit"@,
        TypeV::Fn(params, ret) => "Fn { params: ["@ + types_text(params) + "], ret: "@ + type_text(
            *ret,
        ) + " }"@,
    }
}

/// A list of types printed one after the other, separated by `, `.
pub open spec fn types_text(s: Seq<TypeV>) -> Seq<char>
    decreases s,
{
    if s.len() == 0 {
        seq![]
    } else {
        proof {
            assert(decreases_to!(s => s[s.len() - 1]));
            assert(decreases_to!(s => s.subrange(0, s.len() - 1)));
        }
        if s.len() == 1 {
            type_text(s[0])
        } else {
            types_text(s.drop_last()) + ", "@ + type_text(s.last())
        }
    }
}

/// Appends how `t` is printed to `s`.
pub fn push_type_text(s: &mut String, t: &Type)
    ensures
        final(s)@ == old(s)@ + type_text(t@),
    decreases t,
{
    match t {
        Type::Int => s.append("Int"),
        Type::Float => s.append("Float"),
        Type::Bool => s.append("Bool"),
        Type::Str => s.append("Str"),
        Type::Unit => s.append("Unit"),
        Type::Fn { params, ret } => {
            let ghost start = s@;
            let ghost pv = types_view(params@);
            proof {
                lemma_types_view(params@);
            }
            s.append("Fn { params: [");
            let ghost head = s@;
            let mut i: usize = 0;
            assert(pv.take(0) =~= seq![]);
            #[verifier::loop_isolation(false)]
            while i < params.len()
                invariant
                    i <= params.len(),
                    s@ == head + types_text(pv.take(i as int)),
                decreases params.len() - i,
            {
                assert(decreases_to!(*t => params@[i as int]));
                if i > 0 {
                    s.append(", ");
                }
                push_type_text(s, &params[i]);
                proof {
                    let tk = pv.take(i + 1);
                    assert(tk.drop_last() =~= pv.take(i as int));
                    assert(tk.last() == params@[i as int]@);
                    if i == 0 {
                        assert(s@ =~= head + types_text(tk));
                    } else {
                        assert(s@ =~= head + types_text(tk));
                    }
                }
                i += 1;
            }
            assert(pv.take(params.len() as int) =~= pv);
            s.append("], ret: ");
            push_type_text(s, ret);
            s.append(" }");
            assert(s@ =~= start + type_text(t@));
        },
    }
}

/// How an operator of the source language is printed.
pub open spec fn ast_op_text(op: BinOp) -> Seq<char> {
    match op {
        BinOp::Add => "Add"@,
        BinOp::Sub => "Sub"@,
        BinOp::Mul => "Mul"@,
        BinOp::Div => "Div"@,
        BinOp::Eq => "Eq"@,
        BinOp::Ne => "Ne"@,
        BinOp::Lt => "Lt"@,
        BinOp::Gt => "Gt"@,
        BinOp::And => "And"@,
        BinOp::Or => "Or"@,
        BinOp::Le => "Le"@,
        BinOp::Ge => "Ge"@,
    }
}

fn ast_op_name(op: BinOp) -> (s: &'static str)
    ensures
        s@ == ast_op_text(op),
{
    match op {
        BinOp::Add => "Add",
        BinOp::Sub => "Sub",
        BinOp::Mul => "Mul",
        BinOp::Div => "Div",
        BinOp::Eq => "Eq",
        BinOp::Ne => "Ne",
        BinOp::Lt => "Lt",
        BinOp::Gt => "Gt",
        BinOp::And => "And",
        BinOp::Or => "Or",
        BinOp::Le => "Le",
        BinOp::Ge => "Ge",
    }
}

/// A `let` whose initialiser does not have the declared type.
pub open spec fn let_mismatch_message(name: Seq<char>, declared: TypeV, found: TypeV) -> Seq<char> {
    "Tip incompatibil pentru '"@ + name + "': asteptat "@ + type_text(declared) + ", gasit "@
        + type_text(found)
}

/// A read of, or an assignment to, a name that is not declared.
pub open spec fn undeclared_variable_message(name: Seq<char>) -> Seq<char> {
    "Variabila nedeclarata: '"@ + name + "'"@
}

/// An assignment to an immutable name.
pub open spec fn immutable_message(name: Seq<char>) -> Seq<char> {
    "Atribuire invalida: '"@ + name + "' este imutabila"@
}

/// An assignment of a value of another type.
pub open spec fn assign_mismatch_message(name: Seq<char>, declared: TypeV, found: TypeV) -> Seq<char> {
    "Atribuire invalida pentru '"@ + name + "': "@ + type_text(declared) + " = "@ + type_text(found)
}

/// A returned value that does not have the function's return type.
pub open spec fn return_mismatch_message(expected: TypeV, found: TypeV) -> Seq<char> {
    "Return incompatibil: asteptat "@ + type_text(expected) + ", gasit "@ + type_text(found)
}

/// A `while` condition that is not a `Bool`.
pub open spec fn while_condition_message(found: TypeV) -> Seq<char> {
    "Conditia while trebuie sa fie Bool, gasit "@ + type_text(found)
}

/// An arithmetic operation that is not on two `Int` or two `Float`.
pub open spec fn arithmetic_message(op: BinOp, l: TypeV, r: TypeV) -> Seq<char> {
    "Operatori "@ + ast_op_text(op) + " necesita Int sau Float, gasit "@ + type_text(l) + " si "@
        + type_text(r)
}

/// A comparison of two different types.
pub open spec fn comparison_message(l: TypeV, r: TypeV) -> Seq<char> {
    "Comparatie intre tipuri diferite: "@ + type_text(l) + " vs "@ + type_text(r)
}

/// A logical operation that is not on two `Bool`.
pub open spec fn logic_message(l: TypeV, r: TypeV) -> Seq<char> {
    "And/Or necesita Bool, gasit "@ + type_text(l) + " si "@ + type_text(r)
}

/// A call of a name that is not declared.
pub open spec fn undeclared_function_message(name: Seq<char>) -> Seq<char> {
    "Functie nedeclarata: '"@ + name + "'"@
}

/// A call with the wrong number of arguments.
pub open spec fn arity_message(name: Seq<char>, expected: nat, got: nat) -> Seq<char> {
    "'"@ + name + "' asteapta "@ + decimal(expected) + " argumente, primit "@ + decimal(got)
}

/// An argument that does not have its parameter's type.
pub open spec fn argument_message(name: Seq<char>, expected: TypeV, found: TypeV) -> Seq<char> {
    "Argument incorect pentru '"@ + name + "': asteptat "@ + type_text(expected) + ", gasit "@
        + type_text(found)
}

/// A call of a name that is not a function.
pub open spec fn not_function_message(name: Seq<char>) -> Seq<char> {
    "'"@ + name + "' nu este o functie"@
}

/// An `if` condition that is not a `Bool`.
pub open spec fn if_condition_message(found: TypeV) -> Seq<char> {
    "Conditia if trebuie sa fie Bool, gasit "@ + type_text(found)
}

/// An `if` whose branches have different types.
pub open spec fn branches_message(t: TypeV, e: TypeV) -> Seq<char> {
    "Ramurile if/else au tipuri diferite: "@ + type_text(t) + " vs "@ + type_text(e)
}

pub(crate) fn let_mismatch(name: &String, declared: &Type, found: &Type) -> (m: String)
    ensures
        m@ == let_mismatch_message(name@, declared@, found@),
{
    let mut s = String::from_str("Tip incompatibil pentru '");
    s.append(name.as_str());
    s.append("': asteptat ");
    push_type_text(&mut s, declared);
    s.append(", gasit ");
    push_type_text(&mut s, found);
    s
}

pub(crate) fn undeclared_variable(name: &String) -> (m: String)
    ensures
        m@ == undeclared_variable_message(name@),
{
    let mut s = String::from_str("Variabila nedeclarata: '");
    s.append(name.as_str());
    s.append("'");
    s
}

pub(crate) fn immutable(name: &String) -> (m: String)
    ensures
        m@ == immutable_message(name@),
{
    let mut s = String::from_str("Atribuire invalida: '");
    s.append(name.as_str());
    s.append("' este imutabila");
    s
}

pub(crate) fn assign_mismatch(name: &String, declared: &Type, found: &Type) -> (m: String)
    ensures
        m@ == assign_mismatch_message(name@, declared@, found@),
{
    let mut s = String::from_str("Atribuire invalida pentru '");
    s.append(name.as_str());
    s.append("': ");
    push_type_text(&mut s, declared);
    s.append(" = ");
    push_type_text(&mut s, found);
    s
}

pub(crate) fn return_mismatch(expected: &Type, found: &Type) -> (m: String)
    ensures
        m@ == return_mismatch_message(expected@, found@),
{
    let mut s = String::from_str("Return incompatibil: asteptat ");
    push_type_text(&mut s, expected);
    s.append(", gasit ");
    push_type_text(&mut s, found);
    s
}

pub(crate) fn while_condition(found: &Type) -> (m: String)
    ensures
        m@ == while_condition_message(found@),
{
    let mut s = String::from_str("Conditia while trebuie sa fie Bool, gasit ");
    push_type_text(&mut s, found);
    s
}

pub(crate) fn arithmetic(op: BinOp, l: &Type, r: &Type) -> (m: String)
    ensures
        m@ == arithmetic_message(op, l@, r@),
{
    let mut s = String::from_str("Operatori ");
    s.append(ast_op_name(op));
    s.append(" necesita Int sau Float, gasit ");
    push_type_text(&mut s, l);
    s.append(" si ");
    push_type_text(&mut s, r);
    s
}

pub(crate) fn comparison(l: &Type, r: &Type) -> (m: String)
    ensures
        m@ == comparison_message(l@, r@),
{
    let mut s = String::from_str("Comparatie intre tipuri diferite: ");
    push_type_text(&mut s, l);
    s.append(" vs ");
    push_type_text(&mut s, r);
    s
}

pub(crate) fn logic(l: &Type, r: &Type) -> (m: String)
    ensures
        m@ == logic_message(l@, r@),
{
    let mut s = String::from_str("And/Or necesita Bool, gasit ");
    push_type_text(&mut s, l);
    s.append(" si ");
    push_type_text(&mut s, r);
    s
}

pub(crate) fn undeclared_function(name: &String) -> (m: String)
    ensures
        m@ == undeclared_function_message(name@),
{
    let mut s = String::from_str("Functie nedeclarata: '");
    s.append(name.as_str());
    s.append("'");
    s
}

pub(crate) fn arity(name: &String, expected: usize, got: usize) -> (m: String)
    ensures
        m@ == arity_message(name@, expected as nat, got as nat),
{
    let mut s = String::from_str("'");
    s.append(name.as_str());
    s.append("' asteapta ");
    push_decimal(&mut s, expected as u64);
    s.append(" argumente, primit ");
    push_decimal(&mut s, got as u64);
    s
}

pub(crate) fn argument(name: &String, expected: &Type, found: &Type) -> (m: String)
    ensures
        m@ == argument_message(name@, expected@, found@),
{
    let mut s = String::from_str("Argument incorect pentru '");
    s.append(name.as_str());
    s.append("': asteptat ");
    push_type_text(&mut s, expected);
    s.append(", gasit ");
    push_type_text(&mut s, found);
    s
}

pub(crate) fn not_function(name: &String) -> (m: String)
    ensures
        m@ == not_function_message(name@),
{
    let mut s = String::from_str("'");
    s.append(name.as_str());
    s.append("' nu este o functie");
    s
}

pub(crate) fn if_condition(found: &Type) -> (m: String)
    ensures
        m@ == if_condition_message(found@),
{
    let mut s = String::from_str("Conditia if trebuie sa fie Bool, gasit ");
    push_type_text(&mut s, found);
    s
}

pub(crate) fn branches(t: &Type, e: &Type) -> (m: String)
    ensures
        m@ == branches_message(t@, e@),
{
    let mut s = String::from_str("Ramurile if/else au tipuri diferite: ");
    push_type_text(&mut s, t);
    s.append(" vs ");
    push_type_text(&mut s, e);
    s
}

} // verus!
