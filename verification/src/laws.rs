//! Properties that hold of every input: what the optimisation passes keep,
//! how the symbol table and the interpreter's memory answer after a write,
//! that generated temporaries are fresh, and that generated labels are each
//! defined exactly once.
use vstd::prelude::*;

use crate::optimize::{collapsed, fold_step, folded, folded_from, live_defs, live_pass, reachable, reachable_from};
use crate::ast::{Expr, Stmt};
use crate::codegen::{
    arg_copies, args_code, args_labels, args_results, args_temps, expr_code, expr_labels, expr_result, expr_temps,
    label_text, stmt_code, stmt_labels, stmt_temps, stmts_code, stmts_labels, stmts_temps,
};
use crate::text::{decimal, lemma_decimal_injective};
use crate::checker::{fn_type, functions_registered, stmt_check, stmts_check};
use crate::ast::{FnDecl, TypeV};
use crate::interpreter::{label_map, load_value, run_from, run_outcome, step, Step};
use crate::symbol_table::{declare_in, lookup_in, pop_in, push_in, Scopes, SymbolV};
use crate::tac::{addr_key, temp_text, AddrV, InstrV};

verus! {

broadcast use vstd::seq::group_seq_axioms;

/// Whether `i` transfers or ends control: a label, a jump, a return or a
/// halt.
pub open spec fn is_control(i: InstrV) -> bool {
    i is Label || i is Goto || i is IfGoto || i is Return || i is Halt
}

/// Whether `a` is `b` with some elements left out (order kept).
pub open spec fn is_subsequence(a: Seq<InstrV>, b: Seq<InstrV>) -> bool
    decreases b.len(),
{
    if a.len() == 0 {
        true
    } else if b.len() == 0 {
        false
    } else if a[0] == b[0] {
        is_subsequence(a.drop_first(), b.drop_first())
    } else {
        is_subsequence(a, b.drop_first())
    }
}

proof fn lemma_folded_from(known: Map<Seq<char>, i64>, s: Seq<InstrV>)
    ensures
        folded_from(known, s).len() == s.len(),
        forall|i: int| 0 <= i < s.len() && is_control(s[i]) ==> #[trigger] folded_from(known, s)[i] == s[i],
    decreases s.len(),
{
    if s.len() > 0 {
        let (k, o) = fold_step(known, s[0]);
        lemma_folded_from(k, s.drop_first());
        assert forall|i: int| 0 <= i < s.len() && is_control(s[i]) implies #[trigger] folded_from(known, s)[i] == s[i] by {
            if i > 0 {
                assert(s.drop_first()[i - 1] == s[i]);
            }
        }
    }
}

/// Constant folding keeps the number of instructions, and every label,
/// jump, return and halt stays where it was, unchanged.
pub proof fn law_folding_keeps_shape(s: Seq<InstrV>)
    ensures
        folded(s).len() == s.len(),
        forall|i: int| 0 <= i < s.len() && is_control(s[i]) ==> #[trigger] folded(s)[i] == s[i],
{
    lemma_folded_from(Map::empty(), s);
}

proof fn lemma_reachable_from(skipping: bool, s: Seq<InstrV>)
    ensures
        is_subsequence(reachable_from(skipping, s), s),
        reachable_from(skipping, s).len() <= s.len(),
        forall|i: int| 0 <= i < s.len() && s[i] is Label ==> #[trigger] reachable_from(skipping, s).contains(s[i]),
    decreases s.len(),
{
    if s.len() > 0 {
        let rest = s.drop_first();
        if skipping && !(s[0] is Label) {
            lemma_reachable_from(true, rest);
            lemma_subsequence_of_tail(reachable_from(true, rest), s);
        } else {
            let nxt = s[0] is Return || s[0] is Goto;
            lemma_reachable_from(nxt, rest);
            let r = reachable_from(skipping, s);
            assert(r.drop_first() =~= reachable_from(nxt, rest));
        }
        assert forall|i: int| 0 <= i < s.len() && s[i] is Label implies #[trigger] reachable_from(skipping, s).contains(s[i]) by {
            let r = reachable_from(skipping, s);
            if i > 0 {
                assert(rest[i - 1] == s[i]);
                if skipping && !(s[0] is Label) {
                    assert(reachable_from(true, rest).contains(rest[i - 1]));
                } else {
                    let nxt = s[0] is Return || s[0] is Goto;
                    assert(reachable_from(nxt, rest).contains(rest[i - 1]));
                    let k = choose|k: int| 0 <= k < reachable_from(nxt, rest).len() && reachable_from(nxt, rest)[k] == s[i];
                    assert(r[k + 1] == s[i]);
                }
            } else {
                assert(r[0] == s[0]);
            }
        }
    }
}

proof fn lemma_subsequence_of_tail(a: Seq<InstrV>, b: Seq<InstrV>)
    requires
        b.len() > 0,
        is_subsequence(a, b.drop_first()),
    ensures
        is_subsequence(a, b),
    decreases b.len(), 0nat,
{
    if a.len() > 0 && a[0] == b[0] {
        lemma_subsequence_drop_first(a, b.drop_first());
    }
}

proof fn lemma_subsequence_drop_first(a: Seq<InstrV>, t: Seq<InstrV>)
    requires
        a.len() > 0,
        is_subsequence(a, t),
    ensures
        is_subsequence(a.drop_first(), t),
    decreases t.len(), 1nat,
{
    if t.len() > 0 {
        if a[0] == t[0] {
            lemma_subsequence_of_tail(a.drop_first(), t);
        } else {
            lemma_subsequence_drop_first(a, t.drop_first());
            lemma_subsequence_of_tail(a.drop_first(), t);
        }
    }
}

/// Removing unreachable code only drops instructions: what is left is the
/// input with some instructions left out, in order, and every label stays.
pub proof fn law_dce_only_drops(s: Seq<InstrV>)
    ensures
        is_subsequence(reachable(s), s),
        reachable(s).len() <= s.len(),
        forall|i: int| 0 <= i < s.len() && s[i] is Label ==> #[trigger] reachable(s).contains(s[i]),
{
    lemma_reachable_from(false, s);
}

proof fn lemma_reachable_jumps(skipping: bool, s: Seq<InstrV>)
    ensures
        skipping && reachable_from(skipping, s).len() > 0 ==> reachable_from(skipping, s)[0] is Label,
        forall|i: int|
            0 <= i < reachable_from(skipping, s).len() - 1 && (reachable_from(skipping, s)[i] is Return
                || reachable_from(skipping, s)[i] is Goto) ==> #[trigger] reachable_from(skipping, s)[i + 1] is Label,
    decreases s.len(),
{
    if s.len() > 0 {
        let rest = s.drop_first();
        if skipping && !(s[0] is Label) {
            lemma_reachable_jumps(true, rest);
        } else {
            let nxt = s[0] is Return || s[0] is Goto;
            lemma_reachable_jumps(nxt, rest);
            let r = reachable_from(skipping, s);
            let t = reachable_from(nxt, rest);
            assert(r.drop_first() =~= t);
            assert forall|i: int| 0 <= i < r.len() - 1 && (r[i] is Return || r[i] is Goto) implies #[trigger] r[i + 1] is Label by {
                if i > 0 {
                    assert(r[i] == t[i - 1]);
                    assert(r[i + 1] == t[i]);
                } else {
                    assert(r[1] == t[0]);
                }
            }
        }
    }
}

/// After removing unreachable code, whatever follows a `return` or a `goto`
/// is a label.
pub proof fn law_dce_nothing_after_jump(s: Seq<InstrV>)
    ensures
        forall|i: int|
            0 <= i < reachable(s).len() - 1 && (reachable(s)[i] is Return || reachable(s)[i] is Goto)
                ==> #[trigger] reachable(s)[i + 1] is Label,
{
    lemma_reachable_jumps(false, s);
}

/// The instructions of `s` that are not copies, in order.
pub open spec fn non_copies(s: Seq<InstrV>) -> Seq<InstrV>
    decreases s.len(),
{
    if s.len() == 0 {
        seq![]
    } else if s[0] is Copy {
        non_copies(s.drop_first())
    } else {
        seq![s[0]] + non_copies(s.drop_first())
    }
}

proof fn lemma_non_copies_skip(s: Seq<InstrV>)
    requires
        s.len() >= 2,
        s[0] is Copy,
        s[1] is Copy,
    ensures
        non_copies(s) == non_copies(s.skip(2)),
{
    let t = s.drop_first();
    assert(t[0] is Copy);
    assert(non_copies(t) == non_copies(t.drop_first()));
    assert(t.drop_first() =~= s.skip(2));
}

/// Collapsing copies through temporaries never adds instructions, and
/// leaves every instruction that is not a copy, in order.
pub proof fn law_collapse_keeps_non_copies(s: Seq<InstrV>)
    ensures
        collapsed(s).len() <= s.len(),
        non_copies(collapsed(s)) == non_copies(s),
    decreases s.len(),
{
    if s.len() > 0 {
        if s.len() >= 2 && crate::optimize::is_copy_through(s[0], s[1]) {
            law_collapse_keeps_non_copies(s.skip(2));
            lemma_non_copies_skip(s);
            let c = collapsed(s);
            assert(c.drop_first() =~= collapsed(s.skip(2)));
        } else {
            law_collapse_keeps_non_copies(s.skip(1));
            let c = collapsed(s);
            assert(c.drop_first() =~= collapsed(s.skip(1)));
            assert(s.drop_first() =~= s.skip(1));
        }
    }
}

/// Whether `i` writes a temporary: an operation or a copy into `t<n>`.
pub open spec fn writes_temp(i: InstrV) -> bool {
    ||| i matches InstrV::BinOp { dst: AddrV::Temp(_), .. }
    ||| i matches InstrV::Copy { dst: AddrV::Temp(_), .. }
}

/// The instructions of `s` that do not write a temporary, in order.
pub open spec fn non_temp_writes(s: Seq<InstrV>) -> Seq<InstrV>
    decreases s.len(),
{
    if s.len() == 0 {
        seq![]
    } else if writes_temp(s[0]) {
        non_temp_writes(s.drop_first())
    } else {
        seq![s[0]] + non_temp_writes(s.drop_first())
    }
}

/// Removing dead definitions of temporaries only drops instructions that
/// write a temporary: the result is a subsequence of the input, and every
/// other instruction stays, in order.
pub proof fn law_dead_defs_only_drop_temp_writes(s: Seq<InstrV>)
    ensures
        is_subsequence(live_defs(s), s),
        live_defs(s).len() <= s.len(),
        non_temp_writes(live_defs(s)) == non_temp_writes(s),
    decreases s.len(),
{
    if s.len() > 0 {
        let rest = s.drop_first();
        law_dead_defs_only_drop_temp_writes(rest);
        let k = live_defs(rest);
        let r = live_defs(s);
        if r.len() > k.len() {
            assert(r =~= seq![s[0]] + k);
            assert(r.drop_first() =~= k);
        } else {
            assert(r =~= k);
            lemma_subsequence_of_tail(k, s);
        }
    }
}

// ---------------------------------------------------------------------------
// The symbol table
// ---------------------------------------------------------------------------

/// A name declared in the innermost scope is found, with what was
/// declared.
pub proof fn law_lookup_after_declare(scopes: Scopes, sym: SymbolV)
    requires
        scopes.len() >= 1,
    ensures
        lookup_in(declare_in(scopes, sym), sym.name) == Some(sym),
{
    let d = declare_in(scopes, sym);
    assert(d.last() == scopes.last().insert(sym.name, sym));
}

/// Declaring a name does not change what any other name resolves to.
pub proof fn law_declare_keeps_other_names(scopes: Scopes, sym: SymbolV, name: Seq<char>)
    requires
        scopes.len() >= 1,
        name != sym.name,
    ensures
        lookup_in(declare_in(scopes, sym), name) == lookup_in(scopes, name),
{
    let d = declare_in(scopes, sym);
    assert(d.drop_last() =~= scopes.drop_last());
}

/// Opening a scope changes no lookup, and closing it again gives back the
/// scopes as they were.
pub proof fn law_push_then_pop(scopes: Scopes, name: Seq<char>)
    requires
        scopes.len() >= 1,
    ensures
        lookup_in(push_in(scopes), name) == lookup_in(scopes, name),
        pop_in(push_in(scopes)) == scopes,
{
    assert(push_in(scopes).drop_last() =~= scopes);
}

/// `scopes` after declaring each of `syms` in turn.
pub open spec fn declare_all(scopes: Scopes, syms: Seq<SymbolV>) -> Scopes
    decreases syms.len(),
{
    if syms.len() == 0 {
        scopes
    } else {
        declare_in(declare_all(scopes, syms.drop_last()), syms.last())
    }
}

proof fn lemma_declare_all_keeps_outer(scopes: Scopes, syms: Seq<SymbolV>)
    requires
        scopes.len() >= 1,
    ensures
        declare_all(scopes, syms).len() == scopes.len(),
        declare_all(scopes, syms).take(scopes.len() - 1) == scopes.take(scopes.len() - 1),
    decreases syms.len(),
{
    if syms.len() > 0 {
        lemma_declare_all_keeps_outer(scopes, syms.drop_last());
        let before = declare_all(scopes, syms.drop_last());
        assert(declare_in(before, syms.last()).take(scopes.len() - 1) =~= before.take(scopes.len() - 1));
    }
}

/// Opening a scope, declaring any names in it, and closing it again gives
/// back the scopes as they were: every lookup answers as before.
pub proof fn law_push_declare_pop(scopes: Scopes, syms: Seq<SymbolV>, name: Seq<char>)
    requires
        scopes.len() >= 1,
    ensures
        pop_in(declare_all(push_in(scopes), syms)) == scopes,
        lookup_in(pop_in(declare_all(push_in(scopes), syms)), name) == lookup_in(scopes, name),
{
    lemma_declare_all_keeps_outer(push_in(scopes), syms);
    let inner = declare_all(push_in(scopes), syms);
    assert(push_in(scopes).take(scopes.len() as int) =~= scopes);
    assert(inner.drop_last() =~= inner.take(scopes.len() as int));
}

/// Closing a scope never closes the global one.
pub proof fn law_pop_keeps_global_scope(scopes: Scopes)
    requires
        scopes.len() >= 1,
    ensures
        pop_in(scopes).len() >= 1,
        scopes.len() == 1 ==> pop_in(scopes) == scopes,
        scopes.len() == 1 ==> forall|name: Seq<char>| #[trigger] lookup_in(pop_in(scopes), name) == lookup_in(scopes, name),
{
}

/// Checking a statement leaves as many scopes open as before, and every
/// scope but the innermost as it was: only a `let` declares, and it declares
/// in the innermost scope. A block, loop or nested function leaves all the
/// scopes exactly as they were: every scope it opens is closed again, with
/// what was declared in it.
pub proof fn law_stmt_check_keeps_depth(scopes: Scopes, s: Stmt, ret: TypeV)
    requires
        scopes.len() >= 1,
    ensures
        stmt_check(scopes, s, ret).0.len() == scopes.len(),
        stmt_check(scopes, s, ret).0.take(scopes.len() - 1) == scopes.take(scopes.len() - 1),
        (s is Block || s is While || s is FnDecl) ==> stmt_check(scopes, s, ret).0 == scopes,
    decreases s, 1nat,
{
    let n = scopes.len();
    match s {
        Stmt::Let { .. } => {
            assert(stmt_check(scopes, s, ret).0.take(n - 1) =~= scopes.take(n - 1));
        },
        Stmt::Block(ss) => {
            assert(decreases_to!(ss => ss@));
            law_stmts_check_keeps_depth(push_in(scopes), ss@, ret);
            let inner = stmts_check(push_in(scopes), ss@, ret).0;
            assert(push_in(scopes).take(n as int) =~= scopes);
            assert(inner.drop_last() =~= inner.take(n as int));
        },
        Stmt::While { cond: _, body } => {
            assert(decreases_to!(body => body@));
            law_stmts_check_keeps_depth(push_in(scopes), body@, ret);
            let inner = stmts_check(push_in(scopes), body@, ret).0;
            assert(push_in(scopes).take(n as int) =~= scopes);
            assert(inner.drop_last() =~= inner.take(n as int));
        },
        Stmt::FnDecl { name: _, params: _, body } => {
            assert(decreases_to!(body => body@));
            law_stmts_check_keeps_depth(push_in(scopes), body@, TypeV::Unit);
            let inner = stmts_check(push_in(scopes), body@, TypeV::Unit).0;
            assert(push_in(scopes).take(n as int) =~= scopes);
            assert(inner.drop_last() =~= inner.take(n as int));
        },
        _ => {},
    }
}

/// Checking statements leaves as many scopes open as before, and every
/// scope but the innermost as it was.
pub proof fn law_stmts_check_keeps_depth(scopes: Scopes, s: Seq<Stmt>, ret: TypeV)
    requires
        scopes.len() >= 1,
    ensures
        stmts_check(scopes, s, ret).0.len() == scopes.len(),
        stmts_check(scopes, s, ret).0.take(scopes.len() - 1) == scopes.take(scopes.len() - 1),
    decreases s, 0nat,
{
    if s.len() > 0 {
        assert(decreases_to!(s => s[0]));
        assert(decreases_to!(s => s.subrange(1, s.len() as int)));
        law_stmt_check_keeps_depth(scopes, s[0], ret);
        law_stmts_check_keeps_depth(stmt_check(scopes, s[0], ret).0, s.drop_first(), ret);
    }
}

/// After checking a block, a loop or a nested function, every name resolves
/// as it did before: what the body declared is no longer visible.
pub proof fn law_scoped_stmt_keeps_lookups(scopes: Scopes, s: Stmt, ret: TypeV, name: Seq<char>)
    requires
        scopes.len() >= 1,
        s is Block || s is While || s is FnDecl,
    ensures
        lookup_in(stmt_check(scopes, s, ret).0, name) == lookup_in(scopes, name),
{
    law_stmt_check_keeps_depth(scopes, s, ret);
}

proof fn lemma_registered_other_names(scopes: Scopes, fs: Seq<FnDecl>, name: Seq<char>)
    requires
        scopes.len() >= 1,
        forall|i: int| 0 <= i < fs.len() ==> fs[i].name@ != name,
    ensures
        functions_registered(scopes, fs).len() == scopes.len(),
        lookup_in(functions_registered(scopes, fs), name) == lookup_in(scopes, name),
    decreases fs.len(),
{
    if fs.len() > 0 {
        let sym = SymbolV { name: fs[0].name@, ty: fn_type(fs[0]), mutable: false };
        law_declare_keeps_other_names(scopes, sym, name);
        lemma_registered_other_names(declare_in(scopes, sym), fs.drop_first(), name);
    }
}

/// After registering the functions of a program, each of their names
/// resolves to an immutable function (the last one of that name).
pub proof fn law_registered_functions_resolve(scopes: Scopes, fs: Seq<FnDecl>, i: int)
    requires
        scopes.len() >= 1,
        0 <= i < fs.len(),
    ensures
        lookup_in(functions_registered(scopes, fs), fs[i].name@) matches Some(sym) && sym.ty is Fn
            && !sym.mutable,
    decreases fs.len(),
{
    let sym = SymbolV { name: fs[0].name@, ty: fn_type(fs[0]), mutable: false };
    let rest = fs.drop_first();
    let name = fs[i].name@;
    if exists|j: int| 0 <= j < rest.len() && rest[j].name@ == name {
        let j = choose|j: int| 0 <= j < rest.len() && rest[j].name@ == name;
        law_registered_functions_resolve(declare_in(scopes, sym), rest, j);
    } else {
        assert(i == 0 || rest[i - 1].name@ == name);
        assert(i == 0);
        law_lookup_after_declare(scopes, sym);
        lemma_registered_other_names(declare_in(scopes, sym), rest, name);
    }
}

// ---------------------------------------------------------------------------
// The interpreter's memory
// ---------------------------------------------------------------------------

/// Reading an address right after writing `v` to its cell gives `v`, and
/// writing one cell leaves the others as they were.
pub proof fn law_read_after_write(mem: Map<Seq<char>, i64>, a: AddrV, b: AddrV, v: i64)
    requires
        addr_key(a) is Some,
    ensures
        load_value(mem.insert(addr_key(a)->0, v), a) == v,
        addr_key(b) is Some && addr_key(b) != addr_key(a) ==> load_value(mem.insert(addr_key(a)->0, v), b)
            == load_value(mem, b),
{
}

/// Temporary `n` and the variable named `t<n>` are one memory cell.
pub proof fn law_temp_shares_cell_with_its_name(mem: Map<Seq<char>, i64>, n: usize)
    ensures
        load_value(mem, AddrV::Temp(n)) == load_value(mem, AddrV::Var(temp_text(n))),
{
}

/// A name never written reads as 0; `true` reads as 1 and `false` as 0.
pub proof fn law_default_reads(mem: Map<Seq<char>, i64>, a: AddrV)
    ensures
        addr_key(a) is Some && !mem.contains_key(addr_key(a)->0) ==> load_value(mem, a) == 0,
        load_value(mem, AddrV::BoolLit(true)) == 1,
        load_value(mem, AddrV::BoolLit(false)) == 0,
{
}

proof fn lemma_run_from_larger_limit(
    instrs: Seq<InstrV>,
    labels: Map<Seq<char>, usize>,
    mem: Map<Seq<char>, i64>,
    pc: nat,
    steps: nat,
    max: nat,
    max2: nat,
)
    requires
        max <= max2,
        !(run_from(instrs, labels, mem, pc, steps, max) is StepLimit),
    ensures
        run_from(instrs, labels, mem, pc, steps, max2) == run_from(instrs, labels, mem, pc, steps, max),
    decreases max - steps,
{
    if pc < instrs.len() && steps + 1 <= max {
        match step(instrs, labels, mem, pc) {
            Step::Next(m, p) => lemma_run_from_larger_limit(instrs, labels, m, p, steps + 1, max, max2),
            _ => {},
        }
    }
}

/// A run that ends within its step limit, by returning, halting, running
/// off the end or faulting, ends the same way, with the same memory, under
/// any larger limit.
pub proof fn law_larger_limit_same_run(instrs: Seq<InstrV>, mem: Map<Seq<char>, i64>, start: nat, max: nat, max2: nat)
    requires
        max <= max2,
        !(run_outcome(instrs, mem, start, max) is StepLimit),
    ensures
        run_outcome(instrs, mem, start, max2) == run_outcome(instrs, mem, start, max),
{
    lemma_run_from_larger_limit(instrs, label_map(instrs), mem, start, 0, max, max2);
}

// ---------------------------------------------------------------------------
// Fresh temporaries
// ---------------------------------------------------------------------------

/// The temporary that `i` writes, if it writes one.
pub open spec fn written_temp(i: InstrV) -> Option<usize> {
    match i {
        InstrV::BinOp { dst: AddrV::Temp(n), .. } => Some(n),
        InstrV::Copy { dst: AddrV::Temp(n), .. } => Some(n),
        _ => None,
    }
}

/// Whether every temporary that `s` writes is numbered in `[lo, hi)`.
pub open spec fn temps_within(s: Seq<InstrV>, lo: nat, hi: nat) -> bool {
    forall|i: int| 0 <= i < s.len() ==> (#[trigger] written_temp(s[i]) matches Some(n) ==> lo <= n < hi)
}

/// Whether `a`, when it is a temporary, is numbered in `[lo, hi)`.
pub open spec fn addr_within(a: AddrV, lo: nat, hi: nat) -> bool {
    a matches AddrV::Temp(n) ==> lo <= n < hi
}

proof fn lemma_within_concat(a: Seq<InstrV>, b: Seq<InstrV>, lo: nat, hi: nat)
    requires
        temps_within(a, lo, hi),
        temps_within(b, lo, hi),
    ensures
        temps_within(a + b, lo, hi),
{
    assert forall|i: int| 0 <= i < (a + b).len() implies (#[trigger] written_temp((a + b)[i]) matches Some(n) ==> lo <= n < hi) by {
        if i < a.len() {
            assert((a + b)[i] == a[i]);
        } else {
            assert((a + b)[i] == b[i - a.len()]);
        }
    }
}

/// The code generated for an expression writes only the temporaries it
/// hands out, `t` up to `t + expr_temps(e)`, and its value is in one of
/// them when it is in a temporary: temporaries are never reused.
pub proof fn law_expr_temps_fresh(e: Expr, t: nat, lb: nat)
    requires
        t + expr_temps(e) <= usize::MAX,
    ensures
        temps_within(expr_code(e, t, lb), t, t + expr_temps(e)),
        addr_within(expr_result(e, t, lb), t, t + expr_temps(e)),
    decreases e, 1nat,
{
    match e {
        Expr::BinOp { .. } => lemma_binop_temps_fresh(e, t, lb),
        Expr::Call { .. } => lemma_call_temps_fresh(e, t, lb),
        Expr::If { .. } => lemma_if_temps_fresh(e, t, lb),
        _ => {},
    }
}

proof fn lemma_binop_temps_fresh(e: Expr, t: nat, lb: nat)
    requires
        e is BinOp,
        t + expr_temps(e) <= usize::MAX,
    ensures
        temps_within(expr_code(e, t, lb), t, t + expr_temps(e)),
        addr_within(expr_result(e, t, lb), t, t + expr_temps(e)),
    decreases e, 0nat,
{
    let hi: nat = t + expr_temps(e);
    match e {
        Expr::BinOp { op, left, right } => {
            let t1 = t + expr_temps(*left);
            let lb1 = lb + expr_labels(*left);
            law_expr_temps_fresh(*left, t, lb);
            law_expr_temps_fresh(*right, t1, lb1);
            let last = seq![expr_code(e, t, lb).last()];
            lemma_within_concat(expr_code(*left, t, lb), expr_code(*right, t1, lb1), t, hi);
            lemma_within_concat(expr_code(*left, t, lb) + expr_code(*right, t1, lb1), last, t, hi);
            assert(expr_code(e, t, lb) =~= expr_code(*left, t, lb) + expr_code(*right, t1, lb1) + last);
        },
        _ => {},
    }
}

proof fn lemma_call_temps_fresh(e: Expr, t: nat, lb: nat)
    requires
        e is Call,
        t + expr_temps(e) <= usize::MAX,
    ensures
        temps_within(expr_code(e, t, lb), t, t + expr_temps(e)),
        addr_within(expr_result(e, t, lb), t, t + expr_temps(e)),
    decreases e, 0nat,
{
    let hi: nat = t + expr_temps(e);
    match e {
        Expr::Call { func, args } => {
            assert(decreases_to!(args => args@));
            lemma_args_temps_fresh(args@, t, lb);
            let a = args_code(args@, t, lb);
            let c = arg_copies(args_results(args@, t, lb));
            let last = seq![expr_code(e, t, lb).last()];
            assert(temps_within(c, t, hi));
            lemma_within_concat(a, c, t, hi);
            lemma_within_concat(a + c, last, t, hi);
            assert(expr_code(e, t, lb) =~= a + c + last);
        },
        _ => {},
    }
}

#[verifier::rlimit(50)]
proof fn lemma_if_temps_fresh(e: Expr, t: nat, lb: nat)
    requires
        e is If,
        t + expr_temps(e) <= usize::MAX,
    ensures
        temps_within(expr_code(e, t, lb), t, t + expr_temps(e)),
        addr_within(expr_result(e, t, lb), t, t + expr_temps(e)),
    decreases e, 0nat,
{
    let hi: nat = t + expr_temps(e);
    match e {
        Expr::If { cond, then_, else_ } => {
            let result = AddrV::Temp(t as usize);
            let t1 = t + 1;
            let lb1 = lb + 3;
            let t2 = t1 + expr_temps(*cond);
            let lb2 = lb1 + expr_labels(*cond);
            let t3 = t2 + expr_temps(*then_);
            let lb3 = lb2 + expr_labels(*then_);
            law_expr_temps_fresh(*cond, t1, lb1);
            law_expr_temps_fresh(*then_, t2, lb2);
            let p1 = expr_code(*cond, t1, lb1);
            let m1 = seq![
                InstrV::IfGoto { cond: expr_result(*cond, t1, lb1), label: label_text(lb) },
                InstrV::Goto(label_text(lb + 1)),
                InstrV::Label(label_text(lb)),
            ];
            let p3 = expr_code(*then_, t2, lb2);
            let m2 = seq![
                InstrV::Copy { dst: result, src: expr_result(*then_, t2, lb2) },
                InstrV::Goto(label_text(lb + 2)),
                InstrV::Label(label_text(lb + 1)),
            ];
            let p5 = match else_ {
                Some(eb) => expr_code(*eb, t3, lb3) + seq![
                    InstrV::Copy { dst: result, src: expr_result(*eb, t3, lb3) },
                ],
                None => seq![],
            };
            let m3 = seq![InstrV::Label(label_text(lb + 2))];
            assert(expr_code(e, t, lb) == p1 + m1 + p3 + m2 + p5 + m3);
            assert(temps_within(m1, t, hi)) by {
                assert forall|i: int| 0 <= i < m1.len() implies (#[trigger] written_temp(m1[i]) matches Some(n) ==> t <= n < hi) by {
                    assert(m1[i] == m1[0] || m1[i] == m1[1] || m1[i] == m1[2]);
                }
            }
            assert(temps_within(m2, t, hi)) by {
                assert forall|i: int| 0 <= i < m2.len() implies (#[trigger] written_temp(m2[i]) matches Some(n) ==> t <= n < hi) by {
                    assert(m2[i] == m2[0] || m2[i] == m2[1] || m2[i] == m2[2]);
                }
            }
            assert(temps_within(m3, t, hi)) by {
                assert forall|i: int| 0 <= i < m3.len() implies (#[trigger] written_temp(m3[i]) matches Some(n) ==> t <= n < hi) by {
                    assert(m3[i] == m3[0]);
                }
            }
            match else_ {
                Some(eb) => {
                    law_expr_temps_fresh(*eb, t3, lb3);
                    let tail = seq![InstrV::Copy { dst: result, src: expr_result(*eb, t3, lb3) }];
                    assert(temps_within(tail, t, hi)) by {
                        assert forall|i: int| 0 <= i < tail.len() implies (#[trigger] written_temp(tail[i]) matches Some(n) ==> t <= n < hi) by {
                            assert(tail[i] == tail[0]);
                        }
                    }
                    lemma_within_concat(expr_code(*eb, t3, lb3), tail, t, hi);
                },
                None => {},
            }
            lemma_within_concat(p1, m1, t, hi);
            lemma_within_concat(p1 + m1, p3, t, hi);
            lemma_within_concat(p1 + m1 + p3, m2, t, hi);
            lemma_within_concat(p1 + m1 + p3 + m2, p5, t, hi);
            lemma_within_concat(p1 + m1 + p3 + m2 + p5, m3, t, hi);
        },
        _ => {},
    }
}

proof fn lemma_args_temps_fresh(args: Seq<Expr>, t: nat, lb: nat)
    requires
        t + args_temps(args) <= usize::MAX,
    ensures
        temps_within(args_code(args, t, lb), t, t + args_temps(args)),
        forall|k: int| 0 <= k < args_results(args, t, lb).len() ==> addr_within(
            #[trigger] args_results(args, t, lb)[k],
            t,
            t + args_temps(args),
        ),
        args_results(args, t, lb).len() == args.len(),
    decreases args, 0nat,
{
    if args.len() > 0 {
        assert(decreases_to!(args => args[0]));
        assert(decreases_to!(args => args.subrange(1, args.len() as int)));
        let t1 = t + expr_temps(args[0]);
        let lb1 = lb + expr_labels(args[0]);
        law_expr_temps_fresh(args[0], t, lb);
        lemma_args_temps_fresh(args.drop_first(), t1, lb1);
        let hi: nat = t + args_temps(args);
        lemma_within_concat(expr_code(args[0], t, lb), args_code(args.drop_first(), t1, lb1), t, hi);
        let r = args_results(args, t, lb);
        assert forall|k: int| 0 <= k < r.len() implies addr_within(#[trigger] r[k], t, hi) by {
            if k > 0 {
                assert(r[k] == args_results(args.drop_first(), t1, lb1)[k - 1]);
            }
        }
    }
}

proof fn lemma_within_no_temps(s: Seq<InstrV>, lo: nat, hi: nat)
    requires
        forall|i: int| 0 <= i < s.len() ==> #[trigger] written_temp(s[i]) is None,
    ensures
        temps_within(s, lo, hi),
{
}

proof fn lemma_within_widen(s: Seq<InstrV>, lo: nat, hi: nat, lo2: nat, hi2: nat)
    requires
        temps_within(s, lo, hi),
        lo2 <= lo,
        hi <= hi2,
    ensures
        temps_within(s, lo2, hi2),
{
}

/// The code generated for a statement writes only the temporaries it hands
/// out, `t` up to `t + stmt_temps(s)`: no temporary is reused from one
/// statement to the next, inside loops, blocks and nested functions too.
pub proof fn law_stmt_temps_fresh(s: Stmt, t: nat, lb: nat)
    requires
        t + stmt_temps(s) <= usize::MAX,
    ensures
        temps_within(stmt_code(s, t, lb), t, t + stmt_temps(s)),
    decreases s,
{
    let hi: nat = t + stmt_temps(s);
    match s {
        Stmt::Let { name, ty: _, init } => match init {
            Some(e) => {
                law_expr_temps_fresh(e, t, lb);
                let tail = seq![InstrV::Copy { dst: AddrV::Var(name@), src: expr_result(e, t, lb) }];
                assert(written_temp(tail[0]) is None);
                lemma_within_no_temps(tail, t, hi);
                lemma_within_concat(expr_code(e, t, lb), tail, t, hi);
            },
            None => {
                let only = seq![InstrV::Copy { dst: AddrV::Var(name@), src: AddrV::IntLit(0) }];
                assert(written_temp(only[0]) is None);
                lemma_within_no_temps(only, t, hi);
            },
        },
        Stmt::Assign { name, value } => {
            law_expr_temps_fresh(value, t, lb);
            let tail = seq![InstrV::Copy { dst: AddrV::Var(name@), src: expr_result(value, t, lb) }];
            assert(written_temp(tail[0]) is None);
            lemma_within_no_temps(tail, t, hi);
            lemma_within_concat(expr_code(value, t, lb), tail, t, hi);
        },
        Stmt::Return(e) => {
            law_expr_temps_fresh(e, t, lb);
            let tail = seq![InstrV::Return(expr_result(e, t, lb))];
            assert(written_temp(tail[0]) is None);
            lemma_within_no_temps(tail, t, hi);
            lemma_within_concat(expr_code(e, t, lb), tail, t, hi);
        },
        Stmt::ExprStmt(e) => {
            law_expr_temps_fresh(e, t, lb);
        },
        Stmt::Block(ss) => {
            assert(decreases_to!(ss => ss@));
            law_stmts_temps_fresh(ss@, t, lb);
        },
        Stmt::While { cond, body } => {
            assert(decreases_to!(body => body@));
            let lb1 = lb + 3;
            let t1: nat = t + expr_temps(cond);
            law_expr_temps_fresh(cond, t, lb1);
            law_stmts_temps_fresh(body@, t1, lb1 + expr_labels(cond));
            let head = seq![InstrV::Label(label_text(lb))];
            let c = expr_code(cond, t, lb1);
            let m = seq![
                InstrV::IfGoto { cond: expr_result(cond, t, lb1), label: label_text(lb + 1) },
                InstrV::Goto(label_text(lb + 2)),
                InstrV::Label(label_text(lb + 1)),
            ];
            let b = stmts_code(body@, t1, lb1 + expr_labels(cond));
            let tail = seq![InstrV::Goto(label_text(lb)), InstrV::Label(label_text(lb + 2))];
            assert(written_temp(head[0]) is None);
            assert forall|i: int| 0 <= i < m.len() implies #[trigger] written_temp(m[i]) is None by {
                assert(m[i] == m[0] || m[i] == m[1] || m[i] == m[2]);
            }
            assert forall|i: int| 0 <= i < tail.len() implies #[trigger] written_temp(tail[i]) is None by {
                assert(tail[i] == tail[0] || tail[i] == tail[1]);
            }
            lemma_within_no_temps(head, t, hi);
            lemma_within_no_temps(m, t, hi);
            lemma_within_no_temps(tail, t, hi);
            lemma_within_widen(c, t, t1, t, hi);
            lemma_within_widen(b, t1, hi, t, hi);
            lemma_within_concat(head, c, t, hi);
            lemma_within_concat(head + c, m, t, hi);
            lemma_within_concat(head + c + m, b, t, hi);
            lemma_within_concat(head + c + m + b, tail, t, hi);
            assert(stmt_code(s, t, lb) == head + c + m + b + tail);
        },
        Stmt::FnDecl { name, params: _, body } => {
            assert(decreases_to!(body => body@));
            law_stmts_temps_fresh(body@, t, lb);
            let head = seq![InstrV::Label(name@)];
            let tail = seq![InstrV::Halt];
            assert(written_temp(head[0]) is None);
            assert(written_temp(tail[0]) is None);
            lemma_within_no_temps(head, t, hi);
            lemma_within_no_temps(tail, t, hi);
            lemma_within_concat(head, stmts_code(body@, t, lb), t, hi);
            lemma_within_concat(head + stmts_code(body@, t, lb), tail, t, hi);
        },
    }
}

/// The code generated for a sequence of statements writes only the
/// temporaries it hands out, `t` up to `t + stmts_temps(ss)`.
pub proof fn law_stmts_temps_fresh(ss: Seq<Stmt>, t: nat, lb: nat)
    requires
        t + stmts_temps(ss) <= usize::MAX,
    ensures
        temps_within(stmts_code(ss, t, lb), t, t + stmts_temps(ss)),
    decreases ss,
{
    if ss.len() > 0 {
        assert(decreases_to!(ss => ss[0]));
        assert(decreases_to!(ss => ss.subrange(1, ss.len() as int)));
        let hi: nat = t + stmts_temps(ss);
        let t1: nat = t + stmt_temps(ss[0]);
        let lb1 = lb + stmt_labels(ss[0]);
        law_stmt_temps_fresh(ss[0], t, lb);
        law_stmts_temps_fresh(ss.drop_first(), t1, lb1);
        lemma_within_widen(stmt_code(ss[0], t, lb), t, t1, t, hi);
        lemma_within_widen(stmts_code(ss.drop_first(), t1, lb1), t1, hi, t, hi);
        lemma_within_concat(stmt_code(ss[0], t, lb), stmts_code(ss.drop_first(), t1, lb1), t, hi);
    }
}

// ---------------------------------------------------------------------------
// Labels defined once
// ---------------------------------------------------------------------------

/// Whether `i` defines the generated label numbered `n`.
pub open spec fn defines_label(i: InstrV, n: nat) -> bool {
    i == InstrV::Label(label_text(n))
}

/// How many instructions of `s` define the generated label numbered `n`.
pub open spec fn label_defs(s: Seq<InstrV>, n: nat) -> nat
    decreases s.len(),
{
    if s.len() == 0 {
        0
    } else {
        label_defs(s.drop_last(), n) + if defines_label(s.last(), n) { 1nat } else { 0nat }
    }
}

/// Whether `s` defines each generated label numbered in `[lo, hi)` exactly
/// once, and no other generated label.
pub open spec fn defines_exactly(s: Seq<InstrV>, lo: nat, hi: nat) -> bool {
    forall|n: nat| #[trigger] label_defs(s, n) == if lo <= n < hi { 1nat } else { 0nat }
}

proof fn lemma_label_text_injective(a: nat, b: nat)
    requires
        label_text(a) == label_text(b),
    ensures
        a == b,
{
    assert(label_text(a).drop_first() =~= decimal(a));
    assert(label_text(b).drop_first() =~= decimal(b));
    lemma_decimal_injective(a, b);
}

proof fn lemma_defs_concat(a: Seq<InstrV>, b: Seq<InstrV>, n: nat)
    ensures
        label_defs(a + b, n) == label_defs(a, n) + label_defs(b, n),
    decreases b.len(),
{
    if b.len() > 0 {
        assert((a + b).drop_last() =~= a + b.drop_last());
        assert((a + b).last() == b.last());
        lemma_defs_concat(a, b.drop_last(), n);
    } else {
        assert(a + b =~= a);
    }
}

proof fn lemma_defs_none(s: Seq<InstrV>, n: nat)
    requires
        forall|i: int| 0 <= i < s.len() ==> !(#[trigger] s[i] is Label),
    ensures
        label_defs(s, n) == 0,
    decreases s.len(),
{
    if s.len() > 0 {
        assert(!(s[s.len() - 1] is Label));
        lemma_defs_none(s.drop_last(), n);
    }
}

/// A label instruction for generated label `k` defines `k` and nothing else.
proof fn lemma_defs_label(k: nat, n: nat)
    ensures
        label_defs(seq![InstrV::Label(label_text(k))], n) == if n == k { 1nat } else { 0nat },
{
    let s = seq![InstrV::Label(label_text(k))];
    assert(s.drop_last() =~= Seq::<InstrV>::empty());
    assert(label_defs(s.drop_last(), n) == 0);
    assert(s.last() == InstrV::Label(label_text(k)));
    if label_text(k) == label_text(n) {
        lemma_label_text_injective(k, n);
    }
}

proof fn lemma_defs_plain(i: InstrV, n: nat)
    requires
        !(i is Label),
    ensures
        label_defs(seq![i], n) == 0,
{
    lemma_defs_none(seq![i], n);
}

/// The code generated for an expression defines each label it hands out,
/// `lb` up to `lb + expr_labels(e)`, exactly once, and no other generated
/// label: a jump to one of them has one place to go.
pub proof fn law_expr_labels_fresh(e: Expr, t: nat, lb: nat)
    ensures
        defines_exactly(expr_code(e, t, lb), lb, lb + expr_labels(e)),
    decreases e, 1nat,
{
    match e {
        Expr::BinOp { op: _, left, right } => {
            let t1 = t + expr_temps(*left);
            let lb1 = lb + expr_labels(*left);
            law_expr_labels_fresh(*left, t, lb);
            law_expr_labels_fresh(*right, t1, lb1);
            let a = expr_code(*left, t, lb);
            let b = expr_code(*right, t1, lb1);
            let last = seq![expr_code(e, t, lb).last()];
            assert(expr_code(e, t, lb) =~= a + b + last);
            assert forall|n: nat| #[trigger] label_defs(expr_code(e, t, lb), n) == if lb <= n < lb + expr_labels(e) { 1nat } else { 0nat } by {
                lemma_defs_concat(a, b, n);
                lemma_defs_concat(a + b, last, n);
                lemma_defs_plain(last[0], n);
                assert(label_defs(a, n) == label_defs(a, n));
                assert(label_defs(b, n) == label_defs(b, n));
            }
        },
        Expr::Call { func: _, args } => {
            assert(decreases_to!(args => args@));
            lemma_args_labels_fresh(args@, t, lb);
            let a = args_code(args@, t, lb);
            let c = arg_copies(args_results(args@, t, lb));
            let last = seq![expr_code(e, t, lb).last()];
            assert(expr_code(e, t, lb) =~= a + c + last);
            assert forall|n: nat| #[trigger] label_defs(expr_code(e, t, lb), n) == if lb <= n < lb + expr_labels(e) { 1nat } else { 0nat } by {
                lemma_defs_concat(a, c, n);
                lemma_defs_concat(a + c, last, n);
                lemma_defs_none(c, n);
                lemma_defs_plain(last[0], n);
                assert(label_defs(a, n) == label_defs(a, n));
            }
        },
        Expr::If { .. } => lemma_if_labels_fresh(e, t, lb),
        _ => {
            assert forall|n: nat| #[trigger] label_defs(expr_code(e, t, lb), n) == if lb <= n < lb + expr_labels(e) { 1nat } else { 0nat } by {
                assert(expr_code(e, t, lb).len() == 0);
            }
        },
    }
}

#[verifier::rlimit(50)]
proof fn lemma_if_labels_fresh(e: Expr, t: nat, lb: nat)
    requires
        e is If,
    ensures
        defines_exactly(expr_code(e, t, lb), lb, lb + expr_labels(e)),
    decreases e, 0nat,
{
    match e {
        Expr::If { cond, then_, else_ } => {
            let hi = lb + expr_labels(e);
            let result = AddrV::Temp(t as usize);
            let t1 = t + 1;
            let lb1 = lb + 3;
            let t2 = t1 + expr_temps(*cond);
            let lb2 = lb1 + expr_labels(*cond);
            let t3 = t2 + expr_temps(*then_);
            let lb3 = lb2 + expr_labels(*then_);
            law_expr_labels_fresh(*cond, t1, lb1);
            law_expr_labels_fresh(*then_, t2, lb2);
            let p1 = expr_code(*cond, t1, lb1);
            let i1 = InstrV::IfGoto { cond: expr_result(*cond, t1, lb1), label: label_text(lb) };
            let i2 = InstrV::Goto(label_text(lb + 1));
            let p3 = expr_code(*then_, t2, lb2);
            let i4 = InstrV::Copy { dst: result, src: expr_result(*then_, t2, lb2) };
            let i5 = InstrV::Goto(label_text(lb + 2));
            let p5 = match else_ {
                Some(eb) => expr_code(*eb, t3, lb3) + seq![
                    InstrV::Copy { dst: result, src: expr_result(*eb, t3, lb3) },
                ],
                None => seq![],
            };
            let l0 = seq![InstrV::Label(label_text(lb))];
            let l1 = seq![InstrV::Label(label_text(lb + 1))];
            let l2 = seq![InstrV::Label(label_text(lb + 2))];
            let m1 = seq![i1, i2];
            let m2 = seq![i4, i5];
            assert(expr_code(e, t, lb) =~= p1 + m1 + l0 + p3 + m2 + l1 + p5 + l2);
            match else_ {
                Some(eb) => law_expr_labels_fresh(*eb, t3, lb3),
                None => {},
            }
            assert forall|n: nat| #[trigger] label_defs(expr_code(e, t, lb), n) == if lb <= n < hi { 1nat } else { 0nat } by {
                lemma_defs_concat(p1, m1, n);
                lemma_defs_concat(p1 + m1, l0, n);
                lemma_defs_concat(p1 + m1 + l0, p3, n);
                lemma_defs_concat(p1 + m1 + l0 + p3, m2, n);
                lemma_defs_concat(p1 + m1 + l0 + p3 + m2, l1, n);
                lemma_defs_concat(p1 + m1 + l0 + p3 + m2 + l1, p5, n);
                lemma_defs_concat(p1 + m1 + l0 + p3 + m2 + l1 + p5, l2, n);
                lemma_defs_none(m1, n);
                lemma_defs_none(m2, n);
                lemma_defs_label(lb, n);
                lemma_defs_label(lb + 1, n);
                lemma_defs_label(lb + 2, n);
                assert(label_defs(p1, n) == if lb1 <= n < lb2 { 1nat } else { 0nat });
                assert(label_defs(p3, n) == if lb2 <= n < lb3 { 1nat } else { 0nat });
                match else_ {
                    Some(eb) => {
                        let tail = seq![InstrV::Copy { dst: result, src: expr_result(*eb, t3, lb3) }];
                        lemma_defs_concat(expr_code(*eb, t3, lb3), tail, n);
                        lemma_defs_plain(tail[0], n);
                        assert(label_defs(expr_code(*eb, t3, lb3), n) == if lb3 <= n < hi { 1nat } else { 0nat });
                    },
                    None => {
                        assert(label_defs(p5, n) == 0);
                    },
                }
            }
        },
        _ => {},
    }
}

proof fn lemma_args_labels_fresh(args: Seq<Expr>, t: nat, lb: nat)
    ensures
        defines_exactly(args_code(args, t, lb), lb, lb + args_labels(args)),
    decreases args, 0nat,
{
    if args.len() > 0 {
        assert(decreases_to!(args => args[0]));
        assert(decreases_to!(args => args.subrange(1, args.len() as int)));
        let t1 = t + expr_temps(args[0]);
        let lb1 = lb + expr_labels(args[0]);
        law_expr_labels_fresh(args[0], t, lb);
        lemma_args_labels_fresh(args.drop_first(), t1, lb1);
        let a = expr_code(args[0], t, lb);
        let b = args_code(args.drop_first(), t1, lb1);
        assert(args_code(args, t, lb) == a + b);
        assert forall|n: nat| #[trigger] label_defs(args_code(args, t, lb), n) == if lb <= n < lb + args_labels(args) { 1nat } else { 0nat } by {
            lemma_defs_concat(a, b, n);
            assert(label_defs(a, n) == label_defs(a, n));
            assert(label_defs(b, n) == label_defs(b, n));
        }
    } else {
        assert forall|n: nat| #[trigger] label_defs(args_code(args, t, lb), n) == if lb <= n < lb + args_labels(args) { 1nat } else { 0nat } by {
            assert(args_code(args, t, lb).len() == 0);
        }
    }
}

/// Whether no function declared inside `s` is named like a generated label
/// (`L` and a number): such a name would define that label a second time.
pub open spec fn stmt_names_plain(s: Stmt) -> bool
    decreases s,
{
    match s {
        Stmt::Block(ss) => {
            proof {
                assert(decreases_to!(ss => ss@));
            }
            stmts_names_plain(ss@)
        },
        Stmt::While { cond: _, body } => {
            proof {
                assert(decreases_to!(body => body@));
            }
            stmts_names_plain(body@)
        },
        Stmt::FnDecl { name, params: _, body } => {
            proof {
                assert(decreases_to!(body => body@));
            }
            (forall|n: nat| name@ != #[trigger] label_text(n)) && stmts_names_plain(body@)
        },
        _ => true,
    }
}

/// Whether no function declared inside the statements `ss` is named like a
/// generated label.
pub open spec fn stmts_names_plain(ss: Seq<Stmt>) -> bool
    decreases ss,
{
    if ss.len() == 0 {
        true
    } else {
        proof {
            assert(decreases_to!(ss => ss[0]));
            assert(decreases_to!(ss => ss.subrange(1, ss.len() as int)));
        }
        stmt_names_plain(ss[0]) && stmts_names_plain(ss.drop_first())
    }
}

proof fn lemma_defs_expr_then(e: Expr, t: nat, lb: nat, i: InstrV)
    requires
        !(i is Label),
    ensures
        defines_exactly(expr_code(e, t, lb) + seq![i], lb, lb + expr_labels(e)),
{
    law_expr_labels_fresh(e, t, lb);
    assert forall|n: nat| #[trigger] label_defs(expr_code(e, t, lb) + seq![i], n) == if lb <= n < lb + expr_labels(e) { 1nat } else { 0nat } by {
        lemma_defs_concat(expr_code(e, t, lb), seq![i], n);
        lemma_defs_plain(i, n);
        assert(label_defs(expr_code(e, t, lb), n) == label_defs(expr_code(e, t, lb), n));
    }
}

/// The code generated for a statement defines each label it hands out,
/// `lb` up to `lb + stmt_labels(s)`, exactly once, and no other generated
/// label, as long as no nested function takes such a label's name.
pub proof fn law_stmt_labels_fresh(s: Stmt, t: nat, lb: nat)
    requires
        stmt_names_plain(s),
    ensures
        defines_exactly(stmt_code(s, t, lb), lb, lb + stmt_labels(s)),
    decreases s,
{
    let hi = lb + stmt_labels(s);
    match s {
        Stmt::Let { name, ty: _, init } => match init {
            Some(e) => {
                lemma_defs_expr_then(e, t, lb, InstrV::Copy { dst: AddrV::Var(name@), src: expr_result(e, t, lb) });
            },
            None => {
                assert forall|n: nat| #[trigger] label_defs(stmt_code(s, t, lb), n) == if lb <= n < hi { 1nat } else { 0nat } by {
                    lemma_defs_plain(InstrV::Copy { dst: AddrV::Var(name@), src: AddrV::IntLit(0) }, n);
                }
            },
        },
        Stmt::Assign { name, value } => {
            lemma_defs_expr_then(value, t, lb, InstrV::Copy { dst: AddrV::Var(name@), src: expr_result(value, t, lb) });
        },
        Stmt::Return(e) => {
            lemma_defs_expr_then(e, t, lb, InstrV::Return(expr_result(e, t, lb)));
        },
        Stmt::ExprStmt(e) => {
            law_expr_labels_fresh(e, t, lb);
        },
        Stmt::Block(ss) => {
            assert(decreases_to!(ss => ss@));
            law_stmts_labels_fresh(ss@, t, lb);
        },
        Stmt::While { cond, body } => {
            assert(decreases_to!(body => body@));
            let lb1 = lb + 3;
            let lb2 = lb1 + expr_labels(cond);
            let t1 = t + expr_temps(cond);
            law_expr_labels_fresh(cond, t, lb1);
            law_stmts_labels_fresh(body@, t1, lb2);
            let l0 = seq![InstrV::Label(label_text(lb))];
            let c = expr_code(cond, t, lb1);
            let m = seq![
                InstrV::IfGoto { cond: expr_result(cond, t, lb1), label: label_text(lb + 1) },
                InstrV::Goto(label_text(lb + 2)),
            ];
            let l1 = seq![InstrV::Label(label_text(lb + 1))];
            let b = stmts_code(body@, t1, lb2);
            let g = seq![InstrV::Goto(label_text(lb))];
            let l2 = seq![InstrV::Label(label_text(lb + 2))];
            assert(stmt_code(s, t, lb) =~= l0 + c + m + l1 + b + g + l2);
            assert forall|n: nat| #[trigger] label_defs(stmt_code(s, t, lb), n) == if lb <= n < hi { 1nat } else { 0nat } by {
                lemma_defs_concat(l0, c, n);
                lemma_defs_concat(l0 + c, m, n);
                lemma_defs_concat(l0 + c + m, l1, n);
                lemma_defs_concat(l0 + c + m + l1, b, n);
                lemma_defs_concat(l0 + c + m + l1 + b, g, n);
                lemma_defs_concat(l0 + c + m + l1 + b + g, l2, n);
                lemma_defs_label(lb, n);
                lemma_defs_label(lb + 1, n);
                lemma_defs_label(lb + 2, n);
                lemma_defs_none(m, n);
                lemma_defs_plain(g[0], n);
                assert(label_defs(c, n) == if lb1 <= n < lb2 { 1nat } else { 0nat });
                assert(label_defs(b, n) == if lb2 <= n < hi { 1nat } else { 0nat });
            }
        },
        Stmt::FnDecl { name, params: _, body } => {
            assert(decreases_to!(body => body@));
            law_stmts_labels_fresh(body@, t, lb);
            let head = seq![InstrV::Label(name@)];
            let b = stmts_code(body@, t, lb);
            let tail = seq![InstrV::Halt];
            assert(stmt_code(s, t, lb) =~= head + b + tail);
            assert forall|n: nat| #[trigger] label_defs(stmt_code(s, t, lb), n) == if lb <= n < hi { 1nat } else { 0nat } by {
                lemma_defs_concat(head, b, n);
                lemma_defs_concat(head + b, tail, n);
                assert(name@ != label_text(n));
                assert(head.drop_last() =~= Seq::<InstrV>::empty());
                assert(label_defs(head.drop_last(), n) == 0);
                assert(label_defs(head, n) == 0);
                lemma_defs_plain(InstrV::Halt, n);
                assert(label_defs(b, n) == if lb <= n < hi { 1nat } else { 0nat });
            }
        },
    }
}

/// The code generated for a sequence of statements defines each label it
/// hands out, `lb` up to `lb + stmts_labels(ss)`, exactly once, and no other
/// generated label, as long as no nested function takes such a label's name.
pub proof fn law_stmts_labels_fresh(ss: Seq<Stmt>, t: nat, lb: nat)
    requires
        stmts_names_plain(ss),
    ensures
        defines_exactly(stmts_code(ss, t, lb), lb, lb + stmts_labels(ss)),
    decreases ss,
{
    if ss.len() > 0 {
        assert(decreases_to!(ss => ss[0]));
        assert(decreases_to!(ss => ss.subrange(1, ss.len() as int)));
        let t1 = t + stmt_temps(ss[0]);
        let lb1 = lb + stmt_labels(ss[0]);
        law_stmt_labels_fresh(ss[0], t, lb);
        law_stmts_labels_fresh(ss.drop_first(), t1, lb1);
        let a = stmt_code(ss[0], t, lb);
        let b = stmts_code(ss.drop_first(), t1, lb1);
        assert forall|n: nat| #[trigger] label_defs(stmts_code(ss, t, lb), n) == if lb <= n < lb + stmts_labels(ss) { 1nat } else { 0nat } by {
            lemma_defs_concat(a, b, n);
            assert(label_defs(a, n) == label_defs(a, n));
            assert(label_defs(b, n) == label_defs(b, n));
        }
    } else {
        assert forall|n: nat| #[trigger] label_defs(stmts_code(ss, t, lb), n) == if lb <= n < lb + stmts_labels(ss) { 1nat } else { 0nat } by {
            assert(stmts_code(ss, t, lb).len() == 0);
        }
    }
}

} // verus!
