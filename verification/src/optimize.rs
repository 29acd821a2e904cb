//! The optimisation passes over three-address code.
use vstd::prelude::*;
use vstd::hash_map::StringHashMap;
use std::collections::HashMap;

use crate::codegen::CodeGen;
use crate::tac::{addr_key, apply_op, instrs_view, key_of, op_defined, op_value, Addr, AddrV, Instr, InstrV};

verus! {

broadcast use vstd::std_specs::hash::group_hash_axioms;

// ---------------------------------------------------------------------------
// Collapsing a temporary that is only copied through
// ---------------------------------------------------------------------------

/// Whether `a; b` is `t = x; y = t` for one temporary `t`.
pub open spec fn is_copy_through(a: InstrV, b: InstrV) -> bool {
    &&& a matches InstrV::Copy { dst: AddrV::Temp(t0), src: _ }
    &&& b matches InstrV::Copy { dst: _, src: AddrV::Temp(t1) }
    &&& a->Copy_dst->Temp_0 == b->Copy_src->Temp_0
}

/// Every pair `t = x; y = t` becomes `y = x`, scanning from the front and
/// never reusing an instruction that a pair consumed.
pub open spec fn collapsed(s: Seq<InstrV>) -> Seq<InstrV>
    decreases s.len(),
{
    if s.len() == 0 {
        seq![]
    } else if s.len() >= 2 && is_copy_through(s[0], s[1]) {
        seq![InstrV::Copy { dst: s[1]->Copy_dst, src: s[0]->Copy_src }] + collapsed(s.skip(2))
    } else {
        seq![s[0]] + collapsed(s.skip(1))
    }
}

// ---------------------------------------------------------------------------
// Constant folding
// ---------------------------------------------------------------------------

/// An address with a variable or temporary of known value replaced by that
/// value.
pub open spec fn substituted(known: Map<Seq<char>, i64>, a: AddrV) -> AddrV {
    match addr_key(a) {
        Some(k) => if known.contains_key(k) { AddrV::IntLit(known[k]) } else { a },
        None => a,
    }
}

/// `known` after `dst` gets a value that is not a known constant.
pub open spec fn forget(known: Map<Seq<char>, i64>, dst: AddrV) -> Map<Seq<char>, i64> {
    match addr_key(dst) {
        Some(k) => known.remove(k),
        None => known,
    }
}

/// `known` after `dst` gets the constant `v`.
pub open spec fn learn(known: Map<Seq<char>, i64>, dst: AddrV, v: i64) -> Map<Seq<char>, i64> {
    match addr_key(dst) {
        Some(k) => known.insert(k, v),
        None => known,
    }
}

/// What folding does to one instruction, given the values known before it:
/// the instruction it emits and the values known after it. Every label,
/// jump, return and halt forgets all known values.
pub open spec fn fold_step(known: Map<Seq<char>, i64>, i: InstrV) -> (Map<Seq<char>, i64>, InstrV) {
    match i {
        InstrV::BinOp { dst, op, left, right } => {
            let l = substituted(known, left);
            let r = substituted(known, right);
            if l is IntLit && r is IntLit {
                let v = op_value(op, l->IntLit_0, r->IntLit_0) as i64;
                (learn(known, dst, v), InstrV::Copy { dst, src: AddrV::IntLit(v) })
            } else {
                (forget(known, dst), InstrV::BinOp { dst, op, left: l, right: r })
            }
        },
        InstrV::Copy { dst, src } => {
            let s = substituted(known, src);
            match s {
                AddrV::IntLit(v) => (learn(known, dst, v), InstrV::Copy { dst, src: s }),
                _ => (forget(known, dst), InstrV::Copy { dst, src: s }),
            }
        },
        _ => (Map::empty(), i),
    }
}

/// Whether folding `i` computes no faulty operation (division by zero or
/// overflow) on the values known before it.
pub open spec fn fold_step_defined(known: Map<Seq<char>, i64>, i: InstrV) -> bool {
    match i {
        InstrV::BinOp { dst, op, left, right } => {
            let l = substituted(known, left);
            let r = substituted(known, right);
            l is IntLit && r is IntLit ==> op_defined(op, l->IntLit_0, r->IntLit_0)
        },
        _ => true,
    }
}

/// Folding of `s`, starting with the values `known`.
pub open spec fn folded_from(known: Map<Seq<char>, i64>, s: Seq<InstrV>) -> Seq<InstrV>
    decreases s.len(),
{
    if s.len() == 0 {
        seq![]
    } else {
        let (k, o) = fold_step(known, s[0]);
        seq![o] + folded_from(k, s.drop_first())
    }
}

/// Whether folding `s` from `known` computes no faulty operation.
pub open spec fn folding_defined_from(known: Map<Seq<char>, i64>, s: Seq<InstrV>) -> bool
    decreases s.len(),
{
    s.len() == 0 || (fold_step_defined(known, s[0]) && folding_defined_from(
        fold_step(known, s[0]).0,
        s.drop_first(),
    ))
}

/// Constant folding of `s`: operations on known constants become copies of
/// their value, and reads of variables or temporaries of known value read
/// the value.
pub open spec fn folded(s: Seq<InstrV>) -> Seq<InstrV> {
    folded_from(Map::empty(), s)
}

/// Whether constant folding of `s` computes no faulty operation.
pub open spec fn folding_defined(s: Seq<InstrV>) -> bool {
    folding_defined_from(Map::empty(), s)
}

// ---------------------------------------------------------------------------
// Unreachable code after a return or jump
// ---------------------------------------------------------------------------

/// Removal of unreachable code: after a `return` or `goto`, everything up to
/// the next label is dropped. `skipping` says whether `s` starts in such a
/// stretch.
pub open spec fn reachable_from(skipping: bool, s: Seq<InstrV>) -> Seq<InstrV>
    decreases s.len(),
{
    if s.len() == 0 {
        seq![]
    } else if skipping && !(s[0] is Label) {
        reachable_from(true, s.drop_first())
    } else {
        seq![s[0]] + reachable_from(s[0] is Return || s[0] is Goto, s.drop_first())
    }
}

/// Removal of unreachable code from `s`.
pub open spec fn reachable(s: Seq<InstrV>) -> Seq<InstrV> {
    reachable_from(false, s)
}

// ---------------------------------------------------------------------------
// Definitions of temporaries that nothing reads
// ---------------------------------------------------------------------------

/// The temporaries that reading `a` reads.
pub open spec fn temps_read(a: AddrV) -> Set<usize> {
    match a {
        AddrV::Temp(n) => set![n],
        _ => Set::empty(),
    }
}

/// Whether an instruction whose destination is `dst` stays, given the
/// temporaries `needed` after it (reads of the instruction included).
pub open spec fn dst_kept(dst: AddrV, needed: Set<usize>) -> bool {
    match dst {
        AddrV::Temp(n) => needed.contains(n),
        _ => true,
    }
}

/// The temporaries still needed before an instruction that writes `dst`.
pub open spec fn needed_before(dst: AddrV, needed: Set<usize>) -> Set<usize> {
    match dst {
        AddrV::Temp(n) => needed.remove(n),
        _ => needed,
    }
}

/// The backward pass over `s`: the instructions kept, and the temporaries
/// needed at the start of `s`. An instruction that writes a temporary is
/// dropped when no later kept instruction reads it before it is written
/// again; the scan does not follow jumps.
pub open spec fn live_pass(s: Seq<InstrV>) -> (Seq<InstrV>, Set<usize>)
    decreases s.len(),
{
    if s.len() == 0 {
        (seq![], Set::empty())
    } else {
        let (kept, needed) = live_pass(s.drop_first());
        let x = s[0];
        match x {
            InstrV::BinOp { dst, op: _, left, right } => {
                let n1 = needed + temps_read(left) + temps_read(right);
                (if dst_kept(dst, n1) { seq![x] + kept } else { kept }, needed_before(dst, n1))
            },
            InstrV::Copy { dst, src } => {
                let n1 = needed + temps_read(src);
                (if dst_kept(dst, n1) { seq![x] + kept } else { kept }, needed_before(dst, n1))
            },
            InstrV::IfGoto { cond, label: _ } => (seq![x] + kept, needed + temps_read(cond)),
            InstrV::Return(a) => (seq![x] + kept, needed + temps_read(a)),
            _ => (seq![x] + kept, needed),
        }
    }
}

/// `s` without the definitions of temporaries that nothing reads.
pub open spec fn live_defs(s: Seq<InstrV>) -> Seq<InstrV> {
    live_pass(s).0
}

/// All passes in order: folding, copy collapsing, dead temporaries,
/// unreachable code.
pub open spec fn optimized(s: Seq<InstrV>) -> Seq<InstrV> {
    reachable(live_defs(collapsed(folded(s))))
}

fn int_lit(a: &Addr) -> (v: Option<i64>)
    ensures
        v is Some == a@ is IntLit,
        v is Some ==> v->0 == a@->IntLit_0,
{
    match a {
        Addr::IntLit(n) => Some(*n),
        _ => None,
    }
}

fn substitute(known: &StringHashMap<i64>, a: &Addr) -> (r: Addr)
    ensures
        r@ == substituted(known@, a@),
{
    match key_of(a) {
        Some(k) => match known.get(k.as_str()) {
            Some(v) => Addr::IntLit(*v),
            None => a.clone(),
        },
        None => a.clone(),
    }
}

proof fn lemma_view_push(s: Seq<Instr>, x: Instr)
    ensures
        instrs_view(s.push(x)) == instrs_view(s).push(x@),
{
    assert(instrs_view(s.push(x)) =~= instrs_view(s).push(x@));
}

impl CodeGen {
    /// Folds operations on constants: a variable or temporary whose value is
    /// known since the last label, jump, return or halt is read as that
    /// value, and an operation on two integer literals becomes a copy of
    /// its result.
    pub fn optimize_constant_folding(instrs: &[Instr]) -> (out: Vec<Instr>)
        requires
            folding_defined(instrs_view(instrs@)),
        ensures
            instrs_view(out@) == folded(instrs_view(instrs@)),
    {
        let mut known: StringHashMap<i64> = StringHashMap::new();
        let mut out: Vec<Instr> = Vec::new();
        let ghost iv = instrs_view(instrs@);
        let mut i: usize = 0;
        assert(iv.skip(0) =~= iv);
        assert(instrs_view(out@) =~= seq![]);
        while i < instrs.len()
            invariant
                iv == instrs_view(instrs@),
                i <= instrs.len(),
                instrs_view(out@) + folded_from(known@, iv.skip(i as int)) == folded(iv),
                folding_defined_from(known@, iv.skip(i as int)),
            decreases instrs.len() - i,
        {
            let ghost rest = iv.skip(i as int);
            let ghost k0 = known@;
            proof {
                assert(rest.drop_first() =~= iv.skip(i + 1));
                assert(rest[0] == instrs@[i as int]@);
            }
            let x: Instr;
            match &instrs[i] {
                Instr::BinOp { dst, op, left, right } => {
                    let l = substitute(&known, left);
                    let r = substitute(&known, right);
                    match (int_lit(&l), int_lit(&r)) {
                        (Some(lv), Some(rv)) => {
                            let v = apply_op(*op, lv, rv);
                            match key_of(dst) {
                                Some(k) => known.insert(k, v),
                                None => {},
                            }
                            x = Instr::Copy { dst: dst.clone(), src: Addr::IntLit(v) };
                        },
                        _ => {
                            match key_of(dst) {
                                Some(k) => known.remove(k.as_str()),
                                None => {},
                            }
                            x = Instr::BinOp { dst: dst.clone(), op: *op, left: l, right: r };
                        },
                    }
                },
                Instr::Copy { dst, src } => {
                    let rewritten = substitute(&known, src);
                    match key_of(dst) {
                        Some(k) => match int_lit(&rewritten) {
                            Some(v) => known.insert(k, v),
                            None => known.remove(k.as_str()),
                        },
                        None => {},
                    }
                    x = Instr::Copy { dst: dst.clone(), src: rewritten };
                },
                _ => {
                    known.clear();
                    x = instrs[i].clone();
                },
            }
            proof {
                assert(fold_step(k0, rest[0]).0 == known@);
                assert(fold_step(k0, rest[0]).1 == x@);
                lemma_view_push(out@, x);
            }
            out.push(x);
            i += 1;
            assert(instrs_view(out@) + folded_from(known@, iv.skip(i as int)) =~= folded(iv));
        }
        assert(iv.skip(i as int) =~= seq![]);
        assert(instrs_view(out@) =~= folded(iv));
        out
    }
    /// Drops the code that follows a `return` or `goto` up to the next label.
    pub fn optimize_dce(instrs: &[Instr]) -> (out: Vec<Instr>)
        ensures
            instrs_view(out@) == reachable(instrs_view(instrs@)),
    {
        let mut out: Vec<Instr> = Vec::new();
        let mut skip_until_label = false;
        let ghost iv = instrs_view(instrs@);
        let mut i: usize = 0;
        assert(iv.skip(0) =~= iv);
        assert(instrs_view(out@) =~= seq![]);
        while i < instrs.len()
            invariant
                iv == instrs_view(instrs@),
                i <= instrs.len(),
                instrs_view(out@) + reachable_from(skip_until_label, iv.skip(i as int)) == reachable(iv),
            decreases instrs.len() - i,
        {
            let ghost rest = iv.skip(i as int);
            proof {
                assert(rest.drop_first() =~= iv.skip(i + 1));
                assert(rest[0] == instrs@[i as int]@);
            }
            let is_label = match &instrs[i] {
                Instr::Label(_) => true,
                _ => false,
            };
            if skip_until_label && !is_label {
                i += 1;
                continue;
            }
            let x = instrs[i].clone();
            proof {
                lemma_view_push(out@, x);
            }
            skip_until_label = match &instrs[i] {
                Instr::Return(_) | Instr::Goto(_) => true,
                _ => false,
            };
            out.push(x);
            i += 1;
            assert(instrs_view(out@) + reachable_from(skip_until_label, iv.skip(i as int)) =~= reachable(iv));
        }
        assert(iv.skip(i as int) =~= seq![]);
        assert(instrs_view(out@) =~= reachable(iv));
        out
    }

    /// Drops every instruction that writes a temporary which no later
    /// instruction reads before the temporary is written again, scanning
    /// backwards in program order without following jumps.
    pub fn optimize_dead_temp_defs(instrs: &[Instr]) -> (out: Vec<Instr>)
        ensures
            instrs_view(out@) == live_defs(instrs_view(instrs@)),
    {
        let mut needed: HashMap<usize, ()> = HashMap::new();
        let mut keep_rev: Vec<Instr> = Vec::new();
        let ghost iv = instrs_view(instrs@);
        let mut i: usize = instrs.len();
        assert(iv.skip(i as int) =~= seq![]);
        assert(instrs_view(keep_rev@).reverse() =~= seq![]);
        assert(needed@.dom() =~= Set::<usize>::empty());
        while i > 0
            invariant
                iv == instrs_view(instrs@),
                i <= instrs.len(),
                instrs_view(keep_rev@).reverse() == live_pass(iv.skip(i as int)).0,
                needed@.dom() == live_pass(iv.skip(i as int)).1,
            decreases i,
        {
            i -= 1;
            let ghost rest = iv.skip(i as int);
            proof {
                assert(rest.drop_first() =~= iv.skip(i + 1));
                assert(rest[0] == instrs@[i as int]@);
            }
            let instr = &instrs[i];
            let keep: bool;
            match instr {
                Instr::BinOp { dst, left, right, .. } => {
                    if let Addr::Temp(n) = left {
                        needed.insert(*n, ());
                    }
                    if let Addr::Temp(n) = right {
                        needed.insert(*n, ());
                    }
                    match dst {
                        Addr::Temp(n) => {
                            keep = needed.remove(n).is_some();
                        },
                        _ => {
                            keep = true;
                        },
                    }
                },
                Instr::Copy { dst, src } => {
                    if let Addr::Temp(n) = src {
                        needed.insert(*n, ());
                    }
                    match dst {
                        Addr::Temp(n) => {
                            keep = needed.remove(n).is_some();
                        },
                        _ => {
                            keep = true;
                        },
                    }
                },
                Instr::IfGoto { cond, .. } => {
                    if let Addr::Temp(n) = cond {
                        needed.insert(*n, ());
                    }
                    keep = true;
                },
                Instr::Return(addr) => {
                    if let Addr::Temp(n) = addr {
                        needed.insert(*n, ());
                    }
                    keep = true;
                },
                _ => {
                    keep = true;
                },
            }
            if keep {
                let x = instr.clone();
                proof {
                    lemma_view_push(keep_rev@, x);
                    assert(instrs_view(keep_rev@.push(x)).reverse() =~= seq![x@] + instrs_view(keep_rev@).reverse());
                }
                keep_rev.push(x);
            }
            assert(instrs_view(keep_rev@).reverse() =~= live_pass(iv.skip(i as int)).0);
            assert(needed@.dom() =~= live_pass(iv.skip(i as int)).1);
        }
        let mut out: Vec<Instr> = Vec::new();
        let mut j: usize = keep_rev.len();
        assert(instrs_view(out@) =~= instrs_view(keep_rev@).reverse().take(0));
        while j > 0
            invariant
                j <= keep_rev.len(),
                instrs_view(out@) == instrs_view(keep_rev@).reverse().take(keep_rev.len() - j),
            decreases j,
        {
            j -= 1;
            let x = keep_rev[j].clone();
            proof {
                lemma_view_push(out@, x);
            }
            out.push(x);
            assert(instrs_view(out@) =~= instrs_view(keep_rev@).reverse().take(keep_rev.len() - j));
        }
        assert(iv.skip(0) =~= iv);
        assert(instrs_view(keep_rev@).reverse().take(keep_rev.len() as int) =~= instrs_view(keep_rev@).reverse());
        out
    }

    /// Runs all passes in order: constant folding, copy collapsing, removal
    /// of dead temporaries, removal of unreachable code.
    pub fn optimize_all(instrs: &[Instr]) -> (out: Vec<Instr>)
        requires
            folding_defined(instrs_view(instrs@)),
        ensures
            instrs_view(out@) == optimized(instrs_view(instrs@)),
    {
        let folded = Self::optimize_constant_folding(instrs);
        let copied = Self::optimize_redundant_temps(folded.as_slice());
        let no_dead_temps = Self::optimize_dead_temp_defs(copied.as_slice());
        Self::optimize_dce(no_dead_temps.as_slice())
    }

    /// Rewrites every `t = x; y = t` with one temporary `t` into `y = x`.
    pub fn optimize_redundant_temps(instrs: &[Instr]) -> (out: Vec<Instr>)
        ensures
            instrs_view(out@) == collapsed(instrs_view(instrs@)),
    {
        let mut out: Vec<Instr> = Vec::new();
        let ghost iv = instrs_view(instrs@);
        let mut i: usize = 0;
        assert(iv.skip(0) =~= iv);
        assert(instrs_view(out@) =~= seq![]);
        while i < instrs.len()
            invariant
                iv == instrs_view(instrs@),
                i <= instrs.len(),
                instrs_view(out@) + collapsed(iv.skip(i as int)) == collapsed(iv),
            decreases instrs.len() - i,
        {
            let ghost rest = iv.skip(i as int);
            if i + 1 < instrs.len() {
                if let Instr::Copy { dst: Addr::Temp(t0), src } = &instrs[i] {
                    if let Instr::Copy { dst, src: Addr::Temp(t1) } = &instrs[i + 1] {
                        if t0 == t1 {
                            let x = Instr::Copy { dst: dst.clone(), src: src.clone() };
                            proof {
                                lemma_view_push(out@, x);
                                assert(rest.skip(2) =~= iv.skip(i + 2));
                                assert(rest[0] == iv[i as int] && rest[1] == iv[i + 1]);
                            }
                            out.push(x);
                            i += 2;
                            assert(instrs_view(out@) + collapsed(iv.skip(i as int)) =~= collapsed(iv));
                            continue;
                        }
                    }
                }
            }
            let x = instrs[i].clone();
            proof {
                lemma_view_push(out@, x);
                assert(rest.skip(1) =~= iv.skip(i + 1));
                assert(rest[0] == iv[i as int]);
                assert(!(rest.len() >= 2 && is_copy_through(rest[0], rest[1])));
            }
            out.push(x);
            i += 1;
            assert(instrs_view(out@) + collapsed(iv.skip(i as int)) =~= collapsed(iv));
        }
        assert(iv.skip(i as int) =~= seq![]);
        assert(instrs_view(out@) =~= collapsed(iv));
        out
    }
}

} // verus!
