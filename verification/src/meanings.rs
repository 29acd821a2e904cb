//! What the operators mean, stated on their own terms: what each operator
//! of three-address code computes, which operator each source operator
//! becomes and what it computes there, how each operator is printed, and
//! which operand types the checker accepts for each.
use vstd::prelude::*;

use crate::ast::{BinOp as ABinOp, Expr, TypeV};
use crate::checker::expr_check;
use crate::messages::{arithmetic_message, comparison_message, logic_message};
use crate::symbol_table::Scopes;
use crate::codegen::tac_op;
use crate::interpreter::{load_value, step, Step};
use crate::messages::ast_op_text;
use crate::tac::{addr_key, div_toward_zero, op_defined, op_text, op_value, BinOp as TBinOp, InstrV};

verus! {

proof fn lemma_quotient(l: int, r: int)
    requires
        r != 0,
    ensures
        ({
            let rem = l - div_toward_zero(l, r) * r;
            &&& -(if r < 0 { -r } else { r }) < rem < (if r < 0 { -r } else { r })
            &&& rem == 0 || (rem < 0) == (l < 0)
        }),
{
    let a: int = if l < 0 { -l } else { l };
    let b: int = if r < 0 { -r } else { r };
    let q = a / b;
    let m = a % b;
    vstd::arithmetic::div_mod::lemma_fundamental_div_mod(a, b);
    vstd::arithmetic::div_mod::lemma_mod_pos_bound(a, b);
    assert(a == b * q + m);
    assert(0 <= m < b);
    if l >= 0 && r > 0 {
        assert(div_toward_zero(l, r) == q);
        assert(l - q * r == m) by (nonlinear_arith)
            requires
                a == l,
                b == r,
                a == b * q + m,
        ;
    } else if l < 0 && r < 0 {
        assert(div_toward_zero(l, r) == q);
        assert(l - q * r == -m) by (nonlinear_arith)
            requires
                a == -l,
                b == -r,
                a == b * q + m,
        ;
    } else if l >= 0 && r < 0 {
        assert(div_toward_zero(l, r) == -q);
        assert(l - (-q) * r == m) by (nonlinear_arith)
            requires
                a == l,
                b == -r,
                a == b * q + m,
        ;
    } else {
        assert(div_toward_zero(l, r) == -q);
        assert(l - (-q) * r == -m) by (nonlinear_arith)
            requires
                a == -l,
                b == r,
                a == b * q + m,
        ;
    }
}

/// What each operator of three-address code computes from two numbers: the
/// sum, difference and product; for division, the quotient that leaves a
/// remainder smaller than the divisor and of the sign of the dividend (or
/// none), so the quotient is rounded toward zero; for a comparison, 1 when
/// it holds and 0 when it does not; for `And`, 1 exactly when both numbers
/// are non-zero, and for `Or`, 1 exactly when either is.
pub proof fn law_operator_meaning(l: i64, r: i64)
    ensures
        op_value(TBinOp::Add, l, r) == l + r,
        op_value(TBinOp::Sub, l, r) == l - r,
        op_value(TBinOp::Mul, l, r) == l * r,
        r != 0 ==> ({
            let rem = l - op_value(TBinOp::Div, l, r) * r;
            &&& -(if r < 0 { -r } else { r as int }) < rem < (if r < 0 { -r } else { r as int })
            &&& rem == 0 || (rem < 0) == (l < 0)
        }),
        (op_value(TBinOp::Eq, l, r) == 1 <==> l == r) && (op_value(TBinOp::Eq, l, r) == 0 <==> l != r),
        (op_value(TBinOp::Ne, l, r) == 1 <==> l != r) && (op_value(TBinOp::Ne, l, r) == 0 <==> l == r),
        (op_value(TBinOp::Lt, l, r) == 1 <==> l < r) && (op_value(TBinOp::Lt, l, r) == 0 <==> l >= r),
        (op_value(TBinOp::Gt, l, r) == 1 <==> l > r) && (op_value(TBinOp::Gt, l, r) == 0 <==> l <= r),
        (op_value(TBinOp::Le, l, r) == 1 <==> l <= r) && (op_value(TBinOp::Le, l, r) == 0 <==> l > r),
        (op_value(TBinOp::Ge, l, r) == 1 <==> l >= r) && (op_value(TBinOp::Ge, l, r) == 0 <==> l < r),
        (op_value(TBinOp::And, l, r) == 1 <==> l != 0 && r != 0) && (op_value(TBinOp::And, l, r) == 0 <==> l == 0
            || r == 0),
        (op_value(TBinOp::Or, l, r) == 1 <==> l != 0 || r != 0) && (op_value(TBinOp::Or, l, r) == 0 <==> l == 0 && r
            == 0),
{
    if r != 0 {
        lemma_quotient(l as int, r as int);
    }
}

proof fn lemma_quotient_fits(l: i64, r: i64)
    requires
        r != 0,
    ensures
        op_defined(TBinOp::Div, l, r) <==> !(l == i64::MIN && r == -1),
{
    let a: int = if l < 0 { -l } else { l as int };
    let b: int = if r < 0 { -r } else { r as int };
    vstd::arithmetic::div_mod::lemma_div_nonincreasing(a, b);
    assert(a / b >= 0) by {
        vstd::arithmetic::div_mod::lemma_div_pos_is_pos(a, b);
    }
    if b == 1 {
        assert(a / b == a);
    } else {
        vstd::arithmetic::div_mod::lemma_div_is_ordered_by_denominator(a, 2, b);
        assert(a / 2 < 0x8000_0000_0000_0000);
    }
}

/// Executing an operation reads its two operands, stores what its operator
/// computes from them in the destination's cell, and goes on with the next
/// instruction: a comparison stores 1 when it holds and 0 when it does not,
/// `And` 1 exactly when both operands are non-zero, `Or` when either is; the
/// sum, difference and product are stored when they fit in 64 bits and
/// fault when they do not; division by zero faults, and so does only the
/// division of the least number by -1; any other division stores a
/// quotient that leaves a remainder smaller than the divisor and of the
/// sign of the dividend, or none.
pub proof fn law_binop_step(instrs: Seq<InstrV>, labels: Map<Seq<char>, usize>, mem: Map<Seq<char>, i64>, pc: nat)
    requires
        pc < instrs.len(),
        instrs[pc as int] is BinOp,
        addr_key(instrs[pc as int]->BinOp_dst) is Some,
    ensures
        ({
            let i = instrs[pc as int];
            let k = addr_key(i->BinOp_dst)->0;
            let l = load_value(mem, i->BinOp_left);
            let r = load_value(mem, i->BinOp_right);
            let s = step(instrs, labels, mem, pc);
            &&& i->BinOp_op == TBinOp::Eq ==> s == Step::Next(mem.insert(k, if l == r { 1 } else { 0 }), pc + 1)
            &&& i->BinOp_op == TBinOp::Ne ==> s == Step::Next(mem.insert(k, if l != r { 1 } else { 0 }), pc + 1)
            &&& i->BinOp_op == TBinOp::Lt ==> s == Step::Next(mem.insert(k, if l < r { 1 } else { 0 }), pc + 1)
            &&& i->BinOp_op == TBinOp::Gt ==> s == Step::Next(mem.insert(k, if l > r { 1 } else { 0 }), pc + 1)
            &&& i->BinOp_op == TBinOp::Le ==> s == Step::Next(mem.insert(k, if l <= r { 1 } else { 0 }), pc + 1)
            &&& i->BinOp_op == TBinOp::Ge ==> s == Step::Next(mem.insert(k, if l >= r { 1 } else { 0 }), pc + 1)
            &&& i->BinOp_op == TBinOp::And ==> s == Step::Next(
                mem.insert(k, if l != 0 && r != 0 { 1 } else { 0 }),
                pc + 1,
            )
            &&& i->BinOp_op == TBinOp::Or ==> s == Step::Next(
                mem.insert(k, if l != 0 || r != 0 { 1 } else { 0 }),
                pc + 1,
            )
            &&& i->BinOp_op == TBinOp::Add ==> if i64::MIN <= l + r <= i64::MAX {
                s == Step::Next(mem.insert(k, (l + r) as i64), pc + 1)
            } else {
                s == Step::Fault
            }
            &&& i->BinOp_op == TBinOp::Sub ==> if i64::MIN <= l - r <= i64::MAX {
                s == Step::Next(mem.insert(k, (l - r) as i64), pc + 1)
            } else {
                s == Step::Fault
            }
            &&& i->BinOp_op == TBinOp::Mul ==> if i64::MIN <= l * r <= i64::MAX {
                s == Step::Next(mem.insert(k, (l * r) as i64), pc + 1)
            } else {
                s == Step::Fault
            }
            &&& i->BinOp_op == TBinOp::Div ==> {
                &&& (r == 0 || (l == i64::MIN && r == -1)) <==> s == Step::Fault
                &&& s matches Step::Next(m2, p) ==> {
                    let rem = l - m2[k] * r;
                    &&& p == pc + 1
                    &&& m2 == mem.insert(k, m2[k])
                    &&& -(if r < 0 { -r } else { r as int }) < rem < (if r < 0 { -r } else { r as int })
                    &&& rem == 0 || (rem < 0) == (l < 0)
                }
            }
        }),
{
    let i = instrs[pc as int];
    let l = load_value(mem, i->BinOp_left);
    let r = load_value(mem, i->BinOp_right);
    law_operator_meaning(l, r);
    if r != 0 {
        lemma_quotient_fits(l, r);
    }
}

/// Each source operator becomes the three-address operator printed with the
/// same name, and that operator computes what the source operator means:
/// `<=` gives 1 exactly when the left number is at most the right one, `+`
/// gives the sum, `/` the quotient rounded toward zero, and so on.
pub proof fn law_source_operator_meaning(op: ABinOp, l: i64, r: i64)
    ensures
        op_text(tac_op(op)) == ast_op_text(op),
        op == ABinOp::Add ==> op_value(tac_op(op), l, r) == l + r,
        op == ABinOp::Sub ==> op_value(tac_op(op), l, r) == l - r,
        op == ABinOp::Mul ==> op_value(tac_op(op), l, r) == l * r,
        op == ABinOp::Div && r != 0 ==> ({
            let rem = l - op_value(tac_op(op), l, r) * r;
            &&& -(if r < 0 { -r } else { r as int }) < rem < (if r < 0 { -r } else { r as int })
            &&& rem == 0 || (rem < 0) == (l < 0)
        }),
        op == ABinOp::Eq ==> op_value(tac_op(op), l, r) == if l == r { 1int } else { 0 },
        op == ABinOp::Ne ==> op_value(tac_op(op), l, r) == if l != r { 1int } else { 0 },
        op == ABinOp::Lt ==> op_value(tac_op(op), l, r) == if l < r { 1int } else { 0 },
        op == ABinOp::Gt ==> op_value(tac_op(op), l, r) == if l > r { 1int } else { 0 },
        op == ABinOp::Le ==> op_value(tac_op(op), l, r) == if l <= r { 1int } else { 0 },
        op == ABinOp::Ge ==> op_value(tac_op(op), l, r) == if l >= r { 1int } else { 0 },
        op == ABinOp::And ==> op_value(tac_op(op), l, r) == if l != 0 && r != 0 { 1int } else { 0 },
        op == ABinOp::Or ==> op_value(tac_op(op), l, r) == if l != 0 || r != 0 { 1int } else { 0 },
{
    law_operator_meaning(l, r);
}

/// Different three-address operators are printed with different names, so
/// printed code tells them apart.
pub proof fn law_operator_names_distinct(a: TBinOp, b: TBinOp)
    ensures
        op_text(a) == op_text(b) ==> a == b,
{
    reveal_strlit("Add");
    reveal_strlit("Sub");
    reveal_strlit("Mul");
    reveal_strlit("Div");
    reveal_strlit("Eq");
    reveal_strlit("Ne");
    reveal_strlit("Lt");
    reveal_strlit("Gt");
    reveal_strlit("Le");
    reveal_strlit("Ge");
    reveal_strlit("And");
    reveal_strlit("Or");
    if op_text(a) == op_text(b) {
        assert(op_text(a).len() == op_text(b).len());
        assert(op_text(a)[0] == op_text(b)[0]);
        assert(op_text(a)[1] == op_text(b)[1]);
    }
}

/// Different source operators are printed with different names in the
/// checker's messages.
pub proof fn law_source_operator_names_distinct(a: ABinOp, b: ABinOp)
    ensures
        ast_op_text(a) == ast_op_text(b) ==> a == b,
{
    reveal_strlit("Add");
    reveal_strlit("Sub");
    reveal_strlit("Mul");
    reveal_strlit("Div");
    reveal_strlit("Eq");
    reveal_strlit("Ne");
    reveal_strlit("Lt");
    reveal_strlit("Gt");
    reveal_strlit("Le");
    reveal_strlit("Ge");
    reveal_strlit("And");
    reveal_strlit("Or");
    if ast_op_text(a) == ast_op_text(b) {
        assert(ast_op_text(a).len() == ast_op_text(b).len());
        assert(ast_op_text(a)[0] == ast_op_text(b)[0]);
        assert(ast_op_text(a)[1] == ast_op_text(b)[1]);
    }
}

/// Checking `left op right` reports the errors of `left`, then those of
/// `right`, then at most one error of its own, and gives:
/// - for a comparison (`==`, `!=`, `<`, `>`, `<=`, `>=`), type `Bool`, with
///   an error exactly when the two operand types differ;
/// - for `&&` and `||`, type `Bool`, with an error exactly when an operand is
///   not `Bool`;
/// - for `+`, `-`, `*`, `/`, the left operand's type, with an error exactly
///   when the operand types differ or are neither both `Int` nor both
///   `Float`.
pub proof fn law_operator_check(scopes: Scopes, op: ABinOp, left: Expr, right: Expr)
    ensures
        ({
            let (t, errs) = expr_check(scopes, Expr::BinOp { op, left: Box::new(left), right: Box::new(right) });
            let (lt, le) = expr_check(scopes, left);
            let (rt, re) = expr_check(scopes, right);
            let n = le.len() + re.len();
            &&& errs.subrange(0, n as int) == le + re
            &&& (op == ABinOp::Eq || op == ABinOp::Ne || op == ABinOp::Lt || op == ABinOp::Gt || op == ABinOp::Le
                || op == ABinOp::Ge) ==> {
                &&& t == TypeV::Bool
                &&& lt == rt ==> errs.len() == n
                &&& lt != rt ==> errs.len() == n + 1 && errs[n as int] == comparison_message(lt, rt)
            }
            &&& (op == ABinOp::And || op == ABinOp::Or) ==> {
                &&& t == TypeV::Bool
                &&& lt == TypeV::Bool && rt == TypeV::Bool ==> errs.len() == n
                &&& !(lt == TypeV::Bool && rt == TypeV::Bool) ==> errs.len() == n + 1 && errs[n as int] == logic_message(
                    lt,
                    rt,
                )
            }
            &&& (op == ABinOp::Add || op == ABinOp::Sub || op == ABinOp::Mul || op == ABinOp::Div) ==> {
                let fine = lt == rt && (lt == TypeV::Int || lt == TypeV::Float);
                &&& t == lt
                &&& fine ==> errs.len() == n
                &&& !fine ==> errs.len() == n + 1 && errs[n as int] == arithmetic_message(op, lt, rt)
            }
        }),
{
    let e = Expr::BinOp { op, left: Box::new(left), right: Box::new(right) };
    let (lt, le) = expr_check(scopes, left);
    let (rt, re) = expr_check(scopes, right);
    let errs = expr_check(scopes, e).1;
    let n = le.len() + re.len();
    assert(errs.subrange(0, n as int) =~= le + re);
}

} // verus!
