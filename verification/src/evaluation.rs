//! What an expression's value is, and the proof that the code generated for
//! it computes that value when it is run.
use vstd::prelude::*;

use crate::ast::Expr;
use crate::codegen::{expr_code, expr_labels, expr_result, expr_temps, label_text, tac_op};
use crate::interpreter::{label_map, load_value, run_from, run_outcome, step, Outcome, Step};
use crate::laws::{addr_within, defines_label, label_defs, law_expr_labels_fresh, law_expr_temps_fresh};
use crate::tac::{op_defined, op_value, temp_text, AddrV, InstrV};
use crate::text::lemma_decimal_injective;

verus! {

broadcast use vstd::seq::group_seq_axioms;

/// The state after `n` steps from instruction `pc` in memory `m`, if the
/// run neither stops, faults nor leaves the code before.
pub open spec fn run_steps(
    instrs: Seq<InstrV>,
    labels: Map<Seq<char>, usize>,
    m: Map<Seq<char>, i64>,
    pc: nat,
    n: nat,
) -> Option<(Map<Seq<char>, i64>, nat)>
    decreases n,
{
    if n == 0 {
        Some((m, pc))
    } else if pc >= instrs.len() {
        None
    } else {
        match step(instrs, labels, m, pc) {
            Step::Next(m1, p1) => run_steps(instrs, labels, m1, p1, (n - 1) as nat),
            _ => None,
        }
    }
}

proof fn lemma_steps_compose(
    instrs: Seq<InstrV>,
    labels: Map<Seq<char>, usize>,
    m: Map<Seq<char>, i64>,
    pc: nat,
    a: nat,
    b: nat,
    mid: Map<Seq<char>, i64>,
    mid_pc: nat,
)
    requires
        run_steps(instrs, labels, m, pc, a) == Some((mid, mid_pc)),
    ensures
        run_steps(instrs, labels, m, pc, a + b) == run_steps(instrs, labels, mid, mid_pc, b),
    decreases a,
{
    if a > 0 {
        match step(instrs, labels, m, pc) {
            Step::Next(m1, p1) => lemma_steps_compose(instrs, labels, m1, p1, (a - 1) as nat, b, mid, mid_pc),
            _ => {},
        }
    }
}

proof fn lemma_one_step(
    instrs: Seq<InstrV>,
    labels: Map<Seq<char>, usize>,
    m: Map<Seq<char>, i64>,
    pc: nat,
    m1: Map<Seq<char>, i64>,
    p1: nat,
)
    requires
        pc < instrs.len(),
        step(instrs, labels, m, pc) == Step::Next(m1, p1),
    ensures
        run_steps(instrs, labels, m, pc, 1) == Some((m1, p1)),
{
    assert(run_steps(instrs, labels, m1, p1, 0) == Some((m1, p1)));
}

proof fn lemma_run_from_steps(
    instrs: Seq<InstrV>,
    labels: Map<Seq<char>, usize>,
    m: Map<Seq<char>, i64>,
    pc: nat,
    n: nat,
    steps: nat,
    max: nat,
    end: Map<Seq<char>, i64>,
    end_pc: nat,
)
    requires
        run_steps(instrs, labels, m, pc, n) == Some((end, end_pc)),
        steps + n <= max,
    ensures
        run_from(instrs, labels, m, pc, steps, max) == run_from(instrs, labels, end, end_pc, steps + n, max),
    decreases n,
{
    if n > 0 {
        match step(instrs, labels, m, pc) {
            Step::Next(m1, p1) => lemma_run_from_steps(instrs, labels, m1, p1, (n - 1) as nat, steps + 1, max, end, end_pc),
            _ => {},
        }
    }
}

proof fn lemma_defs_positive(s: Seq<InstrV>, i: int, n: nat)
    requires
        0 <= i < s.len(),
        defines_label(s[i], n),
    ensures
        label_defs(s, n) >= 1,
    decreases s.len(),
{
    if i < s.len() - 1 {
        lemma_defs_positive(s.drop_last(), i, n);
    }
}

/// Where a generated label defined once stands, a jump to it goes.
proof fn lemma_label_map_at(s: Seq<InstrV>, i: int, n: nat)
    requires
        0 <= i < s.len(),
        s.len() <= usize::MAX,
        defines_label(s[i], n),
        label_defs(s, n) <= 1,
    ensures
        label_map(s).contains_key(label_text(n)),
        label_map(s)[label_text(n)] == i,
    decreases s.len(),
{
    if i < s.len() - 1 {
        lemma_defs_positive(s.drop_last(), i, n);
        assert(s.drop_last()[i] == s[i]);
        assert(!defines_label(s.last(), n));
        lemma_label_map_at(s.drop_last(), i, n);
        match s.last() {
            InstrV::Label(l) => {
                assert(l != label_text(n));
                assert(label_map(s) == label_map(s.drop_last()).insert(l, (s.len() - 1) as usize));
            },
            _ => {
                assert(label_map(s) == label_map(s.drop_last()));
            },
        }
    } else {
        assert(s.last() == InstrV::Label(label_text(n)));
        assert(label_map(s) == label_map(s.drop_last()).insert(label_text(n), (s.len() - 1) as usize));
    }
}

/// Different temporaries have different cells.
pub proof fn lemma_temp_text_injective(a: usize, b: usize)
    requires
        temp_text(a) == temp_text(b),
    ensures
        a == b,
{
    assert(temp_text(a).drop_first() =~= crate::text::decimal(a as nat));
    assert(temp_text(b).drop_first() =~= crate::text::decimal(b as nat));
    lemma_decimal_injective(a as nat, b as nat);
}

/// Whether `name` is the name of no temporary (`t` and a number): a
/// variable named like a temporary shares its memory cell.
pub open spec fn plain_name(name: Seq<char>) -> bool {
    forall|k: usize| name != #[trigger] temp_text(k)
}

/// The value of `e` when its variables read as in `m`: an unset variable as
/// 0, `true` as 1 and `false` as 0, a comparison or `&&`/`||` as 1 or 0,
/// and an `if` as its `then` value when its condition is not 0, else as its
/// `else` value. Float and string literals are 0, as the generated code
/// takes them.
pub open spec fn eval(e: Expr, m: Map<Seq<char>, i64>) -> i64
    decreases e,
{
    match e {
        Expr::IntLit(n) => n,
        Expr::BoolLit(b) => if b { 1 } else { 0 },
        Expr::Var(name) => load_value(m, AddrV::Var(name@)),
        Expr::BinOp { op, left, right } => op_value(tac_op(op), eval(*left, m), eval(*right, m)) as i64,
        Expr::If { cond, then_, else_ } => if eval(*cond, m) != 0 {
            eval(*then_, m)
        } else {
            match else_ {
                Some(x) => eval(*x, m),
                None => 0,
            }
        },
        _ => 0,
    }
}

/// Whether the value of `e` in `m` is what its generated code computes:
/// `e` is made of literals, variables of plain names, operators and `if`s
/// with an `else`, no operator it evaluates divides by zero or overflows,
/// and a call stands at most in a branch that is not taken.
pub open spec fn evaluable(e: Expr, m: Map<Seq<char>, i64>) -> bool
    decreases e,
{
    match e {
        Expr::Var(name) => plain_name(name@),
        Expr::BinOp { op, left, right } => evaluable(*left, m) && evaluable(*right, m) && op_defined(
            tac_op(op),
            eval(*left, m),
            eval(*right, m),
        ),
        Expr::If { cond, then_, else_ } => match else_ {
            Some(x) => evaluable(*cond, m) && if eval(*cond, m) != 0 {
                evaluable(*then_, m)
            } else {
                evaluable(*x, m)
            },
            None => false,
        },
        Expr::Call { .. } => false,
        _ => true,
    }
}

/// Whether `m2` reads like `m` at every plain name.
pub open spec fn same_vars(m: Map<Seq<char>, i64>, m2: Map<Seq<char>, i64>) -> bool {
    forall|name: Seq<char>| plain_name(name) ==> #[trigger] load_value(m2, AddrV::Var(name)) == load_value(
        m,
        AddrV::Var(name),
    )
}

/// Whether `m2` reads like `m` at every plain name and at every temporary
/// numbered below `t`.
pub open spec fn same_below(m: Map<Seq<char>, i64>, m2: Map<Seq<char>, i64>, t: nat) -> bool {
    &&& same_vars(m, m2)
    &&& forall|j: usize| j < t ==> #[trigger] load_value(m2, AddrV::Temp(j)) == load_value(m, AddrV::Temp(j))
}

/// Whether every generated label that `instrs` defines is where `labels`
/// sends a jump to it.
pub open spec fn labels_resolve(instrs: Seq<InstrV>, labels: Map<Seq<char>, usize>) -> bool {
    forall|i: int, n: nat|
        0 <= i < instrs.len() && #[trigger] defines_label(instrs[i], n) ==> labels.contains_key(label_text(n))
            && labels[label_text(n)] == i
}

proof fn lemma_write_temp(m: Map<Seq<char>, i64>, k: usize, v: i64, t: nat)
    requires
        t <= k,
    ensures
        same_below(m, m.insert(temp_text(k), v), t),
        load_value(m.insert(temp_text(k), v), AddrV::Temp(k)) == v,
{
    let m2 = m.insert(temp_text(k), v);
    assert forall|name: Seq<char>| plain_name(name) implies #[trigger] load_value(m2, AddrV::Var(name)) == load_value(
        m,
        AddrV::Var(name),
    ) by {
        assert(name != temp_text(k));
    }
    assert forall|j: usize| j < t implies #[trigger] load_value(m2, AddrV::Temp(j)) == load_value(m, AddrV::Temp(j)) by {
        if temp_text(j) == temp_text(k) {
            lemma_temp_text_injective(j, k);
        }
    }
}

proof fn lemma_same_below_trans(m: Map<Seq<char>, i64>, m1: Map<Seq<char>, i64>, m2: Map<Seq<char>, i64>, t: nat, t1: nat)
    requires
        same_below(m, m1, t),
        same_below(m1, m2, t1),
        t <= t1,
    ensures
        same_below(m, m2, t),
{
    assert forall|name: Seq<char>| plain_name(name) implies #[trigger] load_value(m2, AddrV::Var(name)) == load_value(
        m,
        AddrV::Var(name),
    ) by {
        assert(load_value(m1, AddrV::Var(name)) == load_value(m, AddrV::Var(name)));
    }
    assert forall|j: usize| j < t implies #[trigger] load_value(m2, AddrV::Temp(j)) == load_value(m, AddrV::Temp(j)) by {
        assert(load_value(m1, AddrV::Temp(j)) == load_value(m, AddrV::Temp(j)));
    }
}

proof fn lemma_segment(instrs: Seq<InstrV>, o: int, code: Seq<InstrV>, s: int, part: Seq<InstrV>)
    requires
        0 <= o,
        0 <= s,
        o + code.len() <= instrs.len(),
        instrs.subrange(o, o + code.len()) == code,
        s + part.len() <= code.len(),
        code.subrange(s, s + part.len()) == part,
    ensures
        instrs.subrange(o + s, o + s + part.len()) == part,
        forall|i: int| 0 <= i < part.len() ==> instrs[o + s + i] == #[trigger] part[i],
{
    assert forall|i: int| 0 <= i < part.len() implies instrs[o + s + i] == #[trigger] part[i] by {
        assert(instrs.subrange(o, o + code.len())[s + i] == instrs[o + s + i]);
        assert(code.subrange(s, s + part.len())[i] == code[s + i]);
    }
    assert(instrs.subrange(o + s, o + s + part.len()) =~= part);
}

proof fn lemma_same_vars_trans(m0: Map<Seq<char>, i64>, m: Map<Seq<char>, i64>, m1: Map<Seq<char>, i64>)
    requires
        same_vars(m0, m),
        same_vars(m, m1),
    ensures
        same_vars(m0, m1),
{
    assert forall|name: Seq<char>| plain_name(name) implies #[trigger] load_value(m1, AddrV::Var(name)) == load_value(
        m0,
        AddrV::Var(name),
    ) by {
        assert(load_value(m, AddrV::Var(name)) == load_value(m0, AddrV::Var(name)));
    }
}

/// What an evaluable expression's result address reads does not change
/// while code that keeps its temporaries runs.
proof fn lemma_result_stable(
    e: Expr,
    t: nat,
    lb: nat,
    m0: Map<Seq<char>, i64>,
    m1: Map<Seq<char>, i64>,
    m2: Map<Seq<char>, i64>,
    hi: nat,
)
    requires
        evaluable(e, m0),
        same_below(m1, m2, hi),
        t + expr_temps(e) <= hi,
        t + expr_temps(e) <= usize::MAX,
    ensures
        load_value(m2, expr_result(e, t, lb)) == load_value(m1, expr_result(e, t, lb)),
{
    law_expr_temps_fresh(e, t, lb);
    match e {
        Expr::Var(name) => {
            assert(load_value(m2, AddrV::Var(name@)) == load_value(m1, AddrV::Var(name@)));
        },
        _ => {
            match expr_result(e, t, lb) {
                AddrV::Temp(j) => {
                    assert(addr_within(AddrV::Temp(j), t, t + expr_temps(e)));
                    assert(load_value(m2, AddrV::Temp(j)) == load_value(m1, AddrV::Temp(j)));
                },
                _ => {},
            }
        },
    }
}

/// Running the code generated for an evaluable expression, where it stands
/// in `instrs`, ends just past it with the expression's value at its result
/// address, touching no plain name and no temporary numbered below `t`.
proof fn lemma_expr_runs(
    instrs: Seq<InstrV>,
    labels: Map<Seq<char>, usize>,
    m0: Map<Seq<char>, i64>,
    m: Map<Seq<char>, i64>,
    e: Expr,
    t: nat,
    lb: nat,
    o: nat,
) -> (res: (Map<Seq<char>, i64>, nat))
    requires
        evaluable(e, m0),
        same_vars(m0, m),
        t + expr_temps(e) <= usize::MAX,
        o + expr_code(e, t, lb).len() <= instrs.len(),
        instrs.subrange(o as int, o + expr_code(e, t, lb).len() as int) == expr_code(e, t, lb),
        labels_resolve(instrs, labels),
    ensures
        run_steps(instrs, labels, m, o, res.1) == Some((res.0, o + expr_code(e, t, lb).len())),
        res.1 <= expr_code(e, t, lb).len(),
        load_value(res.0, expr_result(e, t, lb)) == eval(e, m0),
        same_below(m, res.0, t),
    decreases e, 1nat,
{
    match e {
        Expr::BinOp { .. } => lemma_binop_runs(instrs, labels, m0, m, e, t, lb, o),
        Expr::If { .. } => lemma_if_runs(instrs, labels, m0, m, e, t, lb, o),
        _ => {
            assert(expr_code(e, t, lb).len() == 0);
            assert(run_steps(instrs, labels, m, o, 0) == Some((m, o)));
            match e {
                Expr::Var(name) => {
                    assert(load_value(m, AddrV::Var(name@)) == load_value(m0, AddrV::Var(name@)));
                },
                _ => {},
            }
            (m, 0)
        },
    }
}

proof fn lemma_binop_runs(
    instrs: Seq<InstrV>,
    labels: Map<Seq<char>, usize>,
    m0: Map<Seq<char>, i64>,
    m: Map<Seq<char>, i64>,
    e: Expr,
    t: nat,
    lb: nat,
    o: nat,
) -> (res: (Map<Seq<char>, i64>, nat))
    requires
        e is BinOp,
        evaluable(e, m0),
        same_vars(m0, m),
        t + expr_temps(e) <= usize::MAX,
        o + expr_code(e, t, lb).len() <= instrs.len(),
        instrs.subrange(o as int, o + expr_code(e, t, lb).len() as int) == expr_code(e, t, lb),
        labels_resolve(instrs, labels),
    ensures
        run_steps(instrs, labels, m, o, res.1) == Some((res.0, o + expr_code(e, t, lb).len())),
        res.1 <= expr_code(e, t, lb).len(),
        load_value(res.0, expr_result(e, t, lb)) == eval(e, m0),
        same_below(m, res.0, t),
    decreases e, 0nat,
{
    match e {
        Expr::BinOp { op, left, right } => {
            let t1 = t + expr_temps(*left);
            let lb1 = lb + expr_labels(*left);
            let a = expr_code(*left, t, lb);
            let b = expr_code(*right, t1, lb1);
            let code = expr_code(e, t, lb);
            let k = (t1 + expr_temps(*right)) as usize;
            let rl = expr_result(*left, t, lb);
            let rr = expr_result(*right, t1, lb1);
            let ins = InstrV::BinOp { dst: AddrV::Temp(k), op: tac_op(op), left: rl, right: rr };
            assert(code =~= a + b + seq![ins]);
            assert(code.subrange(0, a.len() as int) =~= a);
            assert(code.subrange(a.len() as int, (a.len() + b.len()) as int) =~= b);
            assert(code.subrange((a.len() + b.len()) as int, (a.len() + b.len() + 1) as int) =~= seq![ins]);
            lemma_segment(instrs, o as int, code, 0, a);
            lemma_segment(instrs, o as int, code, a.len() as int, b);
            lemma_segment(instrs, o as int, code, (a.len() + b.len()) as int, seq![ins]);
            let (m1, n1) = lemma_expr_runs(instrs, labels, m0, m, *left, t, lb, o);
            lemma_same_vars_trans(m0, m, m1);
            let o1: nat = o + a.len();
            let (m2, n2) = lemma_expr_runs(instrs, labels, m0, m1, *right, t1, lb1, o1);
            lemma_result_stable(*left, t, lb, m0, m1, m2, t1);
            let pc: nat = o1 + b.len();
            assert(instrs[pc as int] == seq![ins][0]);
            let l = load_value(m2, rl);
            let r = load_value(m2, rr);
            let v = op_value(tac_op(op), l, r) as i64;
            let m3 = m2.insert(temp_text(k), v);
            assert(step(instrs, labels, m2, pc) == Step::Next(m3, pc + 1));
            lemma_one_step(instrs, labels, m2, pc, m3, pc + 1);
            lemma_steps_compose(instrs, labels, m, o, n1, n2, m1, o1);
            lemma_steps_compose(instrs, labels, m, o, n1 + n2, 1, m2, pc);
            lemma_write_temp(m2, k, v, t);
            lemma_same_below_trans(m, m1, m2, t, t1);
            lemma_same_below_trans(m, m2, m3, t, t);
            (m3, n1 + n2 + 1)
        },
        _ => (m, 0),
    }
}

#[verifier::rlimit(80)]
proof fn lemma_if_runs(
    instrs: Seq<InstrV>,
    labels: Map<Seq<char>, usize>,
    m0: Map<Seq<char>, i64>,
    m: Map<Seq<char>, i64>,
    e: Expr,
    t: nat,
    lb: nat,
    o: nat,
) -> (res: (Map<Seq<char>, i64>, nat))
    requires
        e is If,
        evaluable(e, m0),
        same_vars(m0, m),
        t + expr_temps(e) <= usize::MAX,
        o + expr_code(e, t, lb).len() <= instrs.len(),
        instrs.subrange(o as int, o + expr_code(e, t, lb).len() as int) == expr_code(e, t, lb),
        labels_resolve(instrs, labels),
    ensures
        run_steps(instrs, labels, m, o, res.1) == Some((res.0, o + expr_code(e, t, lb).len())),
        res.1 <= expr_code(e, t, lb).len(),
        load_value(res.0, expr_result(e, t, lb)) == eval(e, m0),
        same_below(m, res.0, t),
    decreases e, 0nat,
{
    match e {
        Expr::If { cond, then_, else_ } => {
            let x = else_->0;
            let result = AddrV::Temp(t as usize);
            let t1 = t + 1;
            let lb1 = lb + 3;
            let t2 = t1 + expr_temps(*cond);
            let lb2 = lb1 + expr_labels(*cond);
            let t3 = t2 + expr_temps(*then_);
            let lb3 = lb2 + expr_labels(*then_);
            let code = expr_code(e, t, lb);
            let p1 = expr_code(*cond, t1, lb1);
            let cr = expr_result(*cond, t1, lb1);
            let q1 = seq![
                InstrV::IfGoto { cond: cr, label: label_text(lb) },
                InstrV::Goto(label_text(lb + 1)),
                InstrV::Label(label_text(lb)),
            ];
            let p3 = expr_code(*then_, t2, lb2);
            let tr = expr_result(*then_, t2, lb2);
            let q2 = seq![
                InstrV::Copy { dst: result, src: tr },
                InstrV::Goto(label_text(lb + 2)),
                InstrV::Label(label_text(lb + 1)),
            ];
            let p5 = expr_code(*x, t3, lb3);
            let er = expr_result(*x, t3, lb3);
            let q3 = seq![InstrV::Copy { dst: result, src: er }, InstrV::Label(label_text(lb + 2))];
            assert(code =~= p1 + q1 + p3 + q2 + p5 + q3);
            let s1: int = p1.len() as int;
            let s3: int = s1 + 3 + p3.len();
            let s5: int = s3 + 3;
            let s6: int = s5 + p5.len();
            assert(code.subrange(0, s1) =~= p1);
            assert(code.subrange(s1, s1 + 3) =~= q1);
            assert(code.subrange(s1 + 3, s3) =~= p3);
            assert(code.subrange(s3, s3 + 3) =~= q2);
            assert(code.subrange(s5, s6) =~= p5);
            assert(code.subrange(s6, s6 + 2) =~= q3);
            lemma_segment(instrs, o as int, code, 0, p1);
            lemma_segment(instrs, o as int, code, s1, q1);
            lemma_segment(instrs, o as int, code, s1 + 3, p3);
            lemma_segment(instrs, o as int, code, s3, q2);
            lemma_segment(instrs, o as int, code, s5, p5);
            lemma_segment(instrs, o as int, code, s6, q3);
            let end: nat = o + code.len();
            assert(end == o + s6 + 2);
            // the labels of the `if` resolve to where they stand
            assert(instrs[o + s1 + 2] == q1[2]);
            assert(instrs[o + s3 + 2] == q2[2]);
            assert(instrs[o + s6 + 1] == q3[1]);
            assert(defines_label(instrs[o + s1 + 2], lb));
            assert(defines_label(instrs[o + s3 + 2], lb + 1));
            assert(defines_label(instrs[o + s6 + 1], lb + 2));
            // the condition
            let (mc, nc) = lemma_expr_runs(instrs, labels, m0, m, *cond, t1, lb1, o);
            lemma_same_vars_trans(m0, m, mc);
            let pc1: nat = (o + s1) as nat;
            assert(instrs[pc1 as int] == q1[0]);
            if eval(*cond, m0) != 0 {
                let pt: nat = (o + s1 + 3) as nat;
                assert(step(instrs, labels, mc, pc1) == Step::Next(mc, pt));
                lemma_one_step(instrs, labels, mc, pc1, mc, pt);
                let (mt, nt) = lemma_expr_runs(instrs, labels, m0, mc, *then_, t2, lb2, pt);
                let pc4: nat = (o + s3) as nat;
                assert(instrs[pc4 as int] == q2[0]);
                assert(instrs[pc4 + 1int] == q2[1]);
                let v = load_value(mt, tr);
                let mr = mt.insert(temp_text(t as usize), v);
                assert(step(instrs, labels, mt, pc4) == Step::Next(mr, pc4 + 1));
                lemma_one_step(instrs, labels, mt, pc4, mr, pc4 + 1);
                assert(step(instrs, labels, mr, pc4 + 1) == Step::Next(mr, end));
                lemma_one_step(instrs, labels, mr, pc4 + 1, mr, end);
                lemma_steps_compose(instrs, labels, m, o, nc, 1, mc, pc1);
                lemma_steps_compose(instrs, labels, m, o, nc + 1, nt, mc, pt);
                lemma_steps_compose(instrs, labels, m, o, nc + 1 + nt, 1, mt, pc4);
                lemma_steps_compose(instrs, labels, m, o, nc + 1 + nt + 1, 1, mr, pc4 + 1);
                lemma_write_temp(mt, t as usize, v, t);
                lemma_same_below_trans(m, mc, mt, t, t1);
                lemma_same_below_trans(m, mt, mr, t, t);
                (mr, nc + 1 + nt + 1 + 1)
            } else {
                let pc2: nat = pc1 + 1;
                let pe: nat = (o + s5) as nat;
                assert(instrs[pc2 as int] == q1[1]);
                assert(step(instrs, labels, mc, pc1) == Step::Next(mc, pc2));
                lemma_one_step(instrs, labels, mc, pc1, mc, pc2);
                assert(step(instrs, labels, mc, pc2) == Step::Next(mc, pe));
                lemma_one_step(instrs, labels, mc, pc2, mc, pe);
                let (me, ne) = lemma_expr_runs(instrs, labels, m0, mc, *x, t3, lb3, pe);
                let pc7: nat = (o + s6) as nat;
                assert(instrs[pc7 as int] == q3[0]);
                assert(instrs[pc7 + 1int] == q3[1]);
                let v = load_value(me, er);
                let mr = me.insert(temp_text(t as usize), v);
                assert(step(instrs, labels, me, pc7) == Step::Next(mr, pc7 + 1));
                lemma_one_step(instrs, labels, me, pc7, mr, pc7 + 1);
                assert(step(instrs, labels, mr, pc7 + 1) == Step::Next(mr, end));
                lemma_one_step(instrs, labels, mr, pc7 + 1, mr, end);
                lemma_steps_compose(instrs, labels, m, o, nc, 1, mc, pc1);
                lemma_steps_compose(instrs, labels, m, o, nc + 1, 1, mc, pc2);
                lemma_steps_compose(instrs, labels, m, o, nc + 2, ne, mc, pe);
                lemma_steps_compose(instrs, labels, m, o, nc + 2 + ne, 1, me, pc7);
                lemma_steps_compose(instrs, labels, m, o, nc + 2 + ne + 1, 1, mr, pc7 + 1);
                lemma_write_temp(me, t as usize, v, t);
                lemma_same_below_trans(m, mc, me, t, t1);
                lemma_same_below_trans(m, me, mr, t, t);
                (mr, nc + 2 + ne + 1 + 1)
            }
        },
        _ => (m, 0),
    }
}

/// Running the code generated for an evaluable expression, followed by a
/// `return` of its result, from memory `m` with a step limit above the
/// code's length, returns the expression's value: the generated code
/// computes what the expression means.
pub proof fn law_expr_code_computes(e: Expr, m: Map<Seq<char>, i64>, max: nat)
    requires
        evaluable(e, m),
        expr_temps(e) <= usize::MAX,
        expr_code(e, 0, 0).len() < max,
        expr_code(e, 0, 0).len() < usize::MAX,
    ensures
        run_outcome(expr_code(e, 0, 0) + seq![InstrV::Return(expr_result(e, 0, 0))], m, 0, max) matches Outcome::Finished(
            _,
            v,
        ) && v == Some(eval(e, m)),
{
    let code = expr_code(e, 0, 0);
    let p = code + seq![InstrV::Return(expr_result(e, 0, 0))];
    let labels = label_map(p);
    law_expr_labels_fresh(e, 0, 0);
    assert(p.drop_last() =~= code);
    assert forall|i: int, n: nat| 0 <= i < p.len() && #[trigger] defines_label(p[i], n) implies labels.contains_key(
        label_text(n),
    ) && labels[label_text(n)] == i by {
        assert(label_defs(code, n) <= 1);
        assert(label_defs(p, n) == label_defs(code, n));
        lemma_label_map_at(p, i, n);
    }
    assert(p.subrange(0, code.len() as int) =~= code);
    let (m2, n) = lemma_expr_runs(p, labels, m, m, e, 0, 0, 0);
    lemma_run_from_steps(p, labels, m, 0, n, 0, max, m2, code.len());
    assert(p[code.len() as int] == InstrV::Return(expr_result(e, 0, 0)));
}

} // verus!
