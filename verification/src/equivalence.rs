//! What the optimisation passes keep of a run of the code: removing
//! unreachable code and constant folding change no run at all; collapsing
//! copies and dropping dead definitions of temporaries keep the value of a
//! finished run and every cell they still write, under the conditions each
//! law states.
use vstd::prelude::*;

use crate::interpreter::{label_map, run_from, run_outcome, step, Outcome, Step};
use crate::optimize::{
    dst_kept, needed_before,
    collapsed, fold_step, fold_step_defined, folded, folded_from, folding_defined, folding_defined_from, is_copy_through,
    live_defs, live_pass, reachable, reachable_from, substituted, temps_read,
};
use crate::evaluation::plain_name;
use crate::interpreter::load_value;
use crate::tac::{addr_key, op_defined, op_value, temp_text, AddrV};
use crate::tac::InstrV;

verus! {

broadcast use vstd::seq::group_seq_axioms;

/// Whether the removal of unreachable code is dropping instructions when it
/// reaches index `i` of `s`: some `return` or `goto` came before, and no
/// label since.
pub open spec fn skip_at(s: Seq<InstrV>, i: nat) -> bool
    decreases i,
{
    if i == 0 {
        false
    } else {
        let j = (i - 1) as nat;
        if skip_at(s, j) && !(s[j as int] is Label) {
            true
        } else {
            s[j as int] is Return || s[j as int] is Goto
        }
    }
}

/// Whether instruction `i` of `s` is kept by the removal of unreachable code.
pub open spec fn kept(s: Seq<InstrV>, i: nat) -> bool {
    !skip_at(s, i) || s[i as int] is Label
}

/// Where index `i` of `s` lands in the code without unreachable parts: how
/// many instructions before it are kept.
pub open spec fn pos(s: Seq<InstrV>, i: nat) -> nat
    decreases i,
{
    if i == 0 {
        0
    } else {
        pos(s, (i - 1) as nat) + if kept(s, (i - 1) as nat) { 1nat } else { 0nat }
    }
}

proof fn lemma_pos_mono(s: Seq<InstrV>, i: nat, j: nat)
    requires
        i <= j,
    ensures
        pos(s, i) <= pos(s, j),
        kept(s, i) && i < j ==> pos(s, i) < pos(s, j),
    decreases j - i,
{
    if i < j {
        lemma_pos_mono(s, i, (j - 1) as nat);
    }
}

proof fn lemma_pos_le(s: Seq<InstrV>, i: nat)
    ensures
        pos(s, i) <= i,
    decreases i,
{
    if i > 0 {
        lemma_pos_le(s, (i - 1) as nat);
    }
}

proof fn lemma_pos_onto(s: Seq<InstrV>, i: nat, k: nat) -> (j: nat)
    requires
        k < pos(s, i),
    ensures
        j < i,
        kept(s, j),
        pos(s, j) == k,
    decreases i,
{
    let p = (i - 1) as nat;
    if k < pos(s, p) {
        lemma_pos_onto(s, p, k)
    } else {
        p
    }
}

/// What the removal keeps of `s` from index `i` on is the kept instructions
/// there, in order.
proof fn lemma_reachable_suffix(s: Seq<InstrV>, i: nat)
    requires
        i <= s.len(),
    ensures
        reachable_from(skip_at(s, i), s.skip(i as int)).len() == pos(s, s.len()) - pos(s, i),
        forall|j: nat|
            i <= j < s.len() && kept(s, j) ==> #[trigger] reachable_from(skip_at(s, i), s.skip(i as int))[pos(s, j)
                - pos(s, i)] == s[j as int],
    decreases s.len() - i,
{
    lemma_pos_mono(s, i, s.len());
    if i < s.len() {
        let rest = s.skip(i as int);
        assert(rest[0] == s[i as int]);
        assert(rest.drop_first() =~= s.skip(i + 1int));
        lemma_reachable_suffix(s, i + 1);
        let r = reachable_from(skip_at(s, i), rest);
        let r1 = reachable_from(skip_at(s, i + 1), s.skip(i + 1int));
        assert(pos(s, i + 1) == pos(s, i) + if kept(s, i) { 1nat } else { 0nat });
        if skip_at(s, i) && !(s[i as int] is Label) {
            assert(r == r1);
        } else {
            assert(r == seq![s[i as int]] + r1);
            assert forall|j: nat| i <= j < s.len() && kept(s, j) implies #[trigger] r[pos(s, j) - pos(s, i)] == s[j as int] by {
                lemma_pos_mono(s, j, s.len());
                if j > i {
                    lemma_pos_mono(s, i + 1, j);
                    assert(r[pos(s, j) - pos(s, i)] == r1[pos(s, j) - pos(s, i + 1)]);
                }
            }
        }
    }
}

/// The code without unreachable parts holds the kept instructions of `s`,
/// each at its landing index, and nothing else.
proof fn lemma_reachable_at(s: Seq<InstrV>)
    ensures
        reachable(s).len() == pos(s, s.len()),
        forall|j: nat| j < s.len() && kept(s, j) ==> #[trigger] reachable(s)[pos(s, j) as int] == s[j as int],
{
    lemma_reachable_suffix(s, 0);
    assert(s.skip(0) =~= s);
    assert forall|j: nat| j < s.len() && kept(s, j) implies #[trigger] reachable(s)[pos(s, j) as int] == s[j as int] by {
        assert(reachable_from(skip_at(s, 0), s.skip(0))[pos(s, j) - pos(s, 0)] == s[j as int]);
    }
}

/// A label is in the label map exactly when some instruction defines it, and
/// it maps to its last definition.
proof fn lemma_label_map_last(s: Seq<InstrV>, l: Seq<char>)
    requires
        s.len() <= usize::MAX,
    ensures
        label_map(s).contains_key(l) <==> exists|i: int| 0 <= i < s.len() && s[i] == InstrV::Label(l),
        label_map(s).contains_key(l) ==> {
            &&& label_map(s)[l] < s.len()
            &&& s[label_map(s)[l] as int] == InstrV::Label(l)
            &&& forall|j: int| label_map(s)[l] < j < s.len() ==> s[j] != InstrV::Label(l)
        },
    decreases s.len(),
{
    if s.len() > 0 {
        let d = s.drop_last();
        lemma_label_map_last(d, l);
        if s.last() == InstrV::Label(l) {
            assert(label_map(s) == label_map(d).insert(l, (s.len() - 1) as usize));
            assert(s[s.len() - 1] == InstrV::Label(l));
        } else {
            assert(label_map(s).contains_key(l) == label_map(d).contains_key(l));
            assert(label_map(s).contains_key(l) ==> label_map(s)[l] == label_map(d)[l]);
            if exists|i: int| 0 <= i < s.len() && s[i] == InstrV::Label(l) {
                let i = choose|i: int| 0 <= i < s.len() && s[i] == InstrV::Label(l);
                assert(d[i] == s[i]);
            }
            if label_map(d).contains_key(l) {
                let w = label_map(d)[l];
                assert(d[w as int] == s[w as int]);
                assert forall|j: int| w < j < s.len() implies s[j] != InstrV::Label(l) by {
                    if j < s.len() - 1 {
                        assert(d[j] == s[j]);
                    }
                }
            }
        }
    }
}

/// After removing unreachable code, a jump to a label goes to the landing
/// index of where it went before, and a label that was missing is still
/// missing.
proof fn lemma_reachable_labels(s: Seq<InstrV>, l: Seq<char>)
    requires
        s.len() <= usize::MAX,
    ensures
        label_map(reachable(s)).contains_key(l) == label_map(s).contains_key(l),
        label_map(s).contains_key(l) ==> label_map(reachable(s))[l] == pos(s, label_map(s)[l] as nat),
{
    let out = reachable(s);
    lemma_reachable_at(s);
    lemma_pos_le(s, s.len());
    lemma_label_map_last(s, l);
    lemma_label_map_last(out, l);
    if label_map(s).contains_key(l) {
        let v = label_map(s)[l] as nat;
        assert(kept(s, v));
        lemma_pos_mono(s, v, s.len());
        assert(out[pos(s, v) as int] == InstrV::Label(l));
        let w = label_map(out)[l] as nat;
        if w != pos(s, v) {
            assert(w > pos(s, v));
            let j = lemma_pos_onto(s, s.len(), w);
            if j <= v {
                lemma_pos_mono(s, j, v);
            }
            assert(out[w as int] == s[j as int]);
        }
    } else if label_map(out).contains_key(l) {
        let k = choose|k: int| 0 <= k < out.len() && out[k] == InstrV::Label(l);
        let j = lemma_pos_onto(s, s.len(), k as nat);
        assert(out[k] == s[j as int]);
    }
}

proof fn lemma_next_kept(s: Seq<InstrV>, v: nat)
    requires
        v < s.len(),
        kept(s, v),
        !(s[v as int] is Return || s[v as int] is Goto),
    ensures
        pos(s, v + 1) == pos(s, v) + 1,
        v + 1 < s.len() ==> kept(s, v + 1),
{
    assert(!skip_at(s, v + 1));
}

/// A run of `s` from a kept index, and the run of the code without its
/// unreachable parts from the landing index, take the same steps and end
/// the same way.
proof fn lemma_dce_run(s: Seq<InstrV>, mem: Map<Seq<char>, i64>, pc: nat, steps: nat, max: nat)
    requires
        s.len() <= usize::MAX,
        pc <= s.len(),
        pc < s.len() ==> kept(s, pc),
    ensures
        run_from(reachable(s), label_map(reachable(s)), mem, pos(s, pc), steps, max) == run_from(
            s,
            label_map(s),
            mem,
            pc,
            steps,
            max,
        ),
    decreases max - steps,
{
    let out = reachable(s);
    lemma_reachable_at(s);
    lemma_pos_le(s, s.len());
    if pc < s.len() {
        lemma_pos_mono(s, pc, s.len());
        if steps + 1 <= max {
            let i = s[pc as int];
            assert(out[pos(s, pc) as int] == i);
            match i {
                InstrV::Goto(l) => {
                    lemma_reachable_labels(s, l);
                    lemma_label_map_last(s, l);
                    if label_map(s).contains_key(l) {
                        lemma_next_kept(s, label_map(s)[l] as nat);
                    }
                },
                InstrV::IfGoto { cond: _, label } => {
                    lemma_next_kept(s, pc);
                    lemma_reachable_labels(s, label);
                    lemma_label_map_last(s, label);
                    if label_map(s).contains_key(label) {
                        lemma_next_kept(s, label_map(s)[label] as nat);
                    }
                },
                InstrV::Return(_) => {},
                _ => {
                    lemma_next_kept(s, pc);
                },
            }
            match step(s, label_map(s), mem, pc) {
                Step::Next(m1, p1) => {
                    assert(step(out, label_map(out), mem, pos(s, pc)) == Step::Next(m1, pos(s, p1)));
                    lemma_dce_run(s, m1, p1, steps + 1, max);
                },
                _ => {
                    assert(step(out, label_map(out), mem, pos(s, pc)) == step(s, label_map(s), mem, pc));
                },
            }
        }
    }
}

/// Removing unreachable code changes no run: from the start, or from just
/// past any label (where a call of that function starts), the code without
/// its unreachable parts ends the same way as `s`, with the same value and
/// memory, after the same number of steps.
pub proof fn law_dce_keeps_runs(s: Seq<InstrV>, mem: Map<Seq<char>, i64>, max: nat)
    requires
        s.len() <= usize::MAX,
    ensures
        run_outcome(reachable(s), mem, 0, max) == run_outcome(s, mem, 0, max),
        forall|l: Seq<char>|
            #[trigger] label_map(s).contains_key(l) ==> label_map(reachable(s)).contains_key(l) && run_outcome(
                reachable(s),
                mem,
                (label_map(reachable(s))[l] + 1) as nat,
                max,
            ) == run_outcome(s, mem, (label_map(s)[l] + 1) as nat, max),
{
    lemma_dce_run(s, mem, 0, 0, max);
    assert forall|l: Seq<char>| #[trigger] label_map(s).contains_key(l) implies label_map(reachable(s)).contains_key(l)
        && run_outcome(reachable(s), mem, (label_map(reachable(s))[l] + 1) as nat, max) == run_outcome(
        s,
        mem,
        (label_map(s)[l] + 1) as nat,
        max,
    ) by {
        lemma_reachable_labels(s, l);
        lemma_label_map_last(s, l);
        let v = label_map(s)[l] as nat;
        lemma_next_kept(s, v);
        lemma_dce_run(s, mem, v + 1, 0, max);
    }
}

/// The values folding knows when it reaches index `i` of `s`.
pub open spec fn known_at(s: Seq<InstrV>, i: nat) -> Map<Seq<char>, i64>
    decreases i,
{
    if i == 0 {
        Map::empty()
    } else {
        fold_step(known_at(s, (i - 1) as nat), s[i - 1]).0
    }
}

proof fn lemma_folded_suffix(s: Seq<InstrV>, i: nat)
    requires
        i <= s.len(),
    ensures
        folded_from(known_at(s, i), s.skip(i as int)).len() == s.len() - i,
        forall|j: nat|
            i <= j < s.len() ==> #[trigger] folded_from(known_at(s, i), s.skip(i as int))[j - i] == fold_step(
                known_at(s, j),
                s[j as int],
            ).1,
        folding_defined_from(known_at(s, i), s.skip(i as int)) ==> forall|j: nat|
            i <= j < s.len() ==> #[trigger] fold_step_defined(known_at(s, j), s[j as int]),
    decreases s.len() - i,
{
    if i < s.len() {
        let rest = s.skip(i as int);
        assert(rest[0] == s[i as int]);
        assert(rest.drop_first() =~= s.skip(i + 1int));
        lemma_folded_suffix(s, i + 1);
        let k1 = known_at(s, i + 1);
        assert(k1 == fold_step(known_at(s, i), s[i as int]).0);
        let r = folded_from(known_at(s, i), rest);
        let r1 = folded_from(k1, s.skip(i + 1int));
        assert(r == seq![fold_step(known_at(s, i), s[i as int]).1] + r1);
        assert forall|j: nat| i <= j < s.len() implies #[trigger] r[j - i] == fold_step(known_at(s, j), s[j as int]).1 by {
            if j > i {
                assert(r[j - i] == r1[j - (i + 1)]);
            }
        }
    }
}

/// Folding puts, at each index, the fold of the instruction there with the
/// values known at that point, and computes no faulty operation anywhere
/// when it computes none at all.
proof fn lemma_folded_at(s: Seq<InstrV>)
    ensures
        folded(s).len() == s.len(),
        forall|j: nat| j < s.len() ==> #[trigger] folded(s)[j as int] == fold_step(known_at(s, j), s[j as int]).1,
        folding_defined(s) ==> forall|j: nat| j < s.len() ==> #[trigger] fold_step_defined(known_at(s, j), s[j as int]),
{
    lemma_folded_suffix(s, 0);
    assert(s.skip(0) =~= s);
    assert forall|j: nat| j < s.len() implies #[trigger] folded(s)[j as int] == fold_step(known_at(s, j), s[j as int]).1 by {
        assert(folded_from(known_at(s, 0), s.skip(0))[j - 0] == fold_step(known_at(s, j), s[j as int]).1);
    }
}

/// Two codes of one length with the same labels at the same places have
/// one label map.
proof fn lemma_label_map_same(a: Seq<InstrV>, b: Seq<InstrV>)
    requires
        a.len() == b.len(),
        forall|i: int| 0 <= i < a.len() ==> (#[trigger] a[i] is Label || b[i] is Label) ==> a[i] == b[i],
    ensures
        label_map(a) == label_map(b),
    decreases a.len(),
{
    if a.len() > 0 {
        assert forall|i: int| 0 <= i < a.drop_last().len() implies (#[trigger] a.drop_last()[i] is Label
            || b.drop_last()[i] is Label) ==> a.drop_last()[i] == b.drop_last()[i] by {
            assert(a.drop_last()[i] == a[i]);
            assert(b.drop_last()[i] == b[i]);
        }
        lemma_label_map_same(a.drop_last(), b.drop_last());
        assert(a[a.len() - 1] is Label || b[b.len() - 1] is Label ==> a.last() == b.last());
    }
}

/// Whether every value folding knows is what memory `mem` reads there.
pub open spec fn agrees(known: Map<Seq<char>, i64>, mem: Map<Seq<char>, i64>) -> bool {
    forall|k: Seq<char>| #[trigger] known.contains_key(k) ==> (if mem.contains_key(k) { mem[k] } else { 0 }) == known[k]
}

proof fn lemma_subst_loads(known: Map<Seq<char>, i64>, mem: Map<Seq<char>, i64>, a: AddrV)
    requires
        agrees(known, mem),
    ensures
        load_value(mem, substituted(known, a)) == load_value(mem, a),
{
    match addr_key(a) {
        Some(k) => {
            if known.contains_key(k) {
                assert(known.contains_key(k));
            }
        },
        None => {},
    }
}

proof fn lemma_agrees_empty(mem: Map<Seq<char>, i64>)
    ensures
        agrees(Map::empty(), mem),
{
}

proof fn lemma_agrees_write(known: Map<Seq<char>, i64>, mem: Map<Seq<char>, i64>, key: Seq<char>, v: i64, w: i64)
    requires
        agrees(known, mem),
    ensures
        agrees(known.insert(key, v), mem.insert(key, v)),
        agrees(known.remove(key), mem.insert(key, w)),
        agrees(Map::empty(), mem),
{
    lemma_agrees_empty(mem);
    assert forall|k: Seq<char>| #[trigger] known.insert(key, v).contains_key(k) implies (if mem.insert(key, v).contains_key(k) {
        mem.insert(key, v)[k]
    } else {
        0
    }) == known.insert(key, v)[k] by {
        if k != key {
            assert(known.contains_key(k));
        }
    }
    assert forall|k: Seq<char>| #[trigger] known.remove(key).contains_key(k) implies (if mem.insert(key, w).contains_key(k) {
        mem.insert(key, w)[k]
    } else {
        0
    }) == known.remove(key)[k] by {
        assert(known.contains_key(k));
    }
}

/// A run of the folded code and a run of `s` from the same index, in a
/// memory that holds what folding knows there, take the same steps and end
/// the same way.
#[verifier::rlimit(40)]
proof fn lemma_fold_run(s: Seq<InstrV>, mem: Map<Seq<char>, i64>, pc: nat, steps: nat, max: nat)
    requires
        s.len() <= usize::MAX,
        folding_defined(s),
        pc < s.len() ==> agrees(known_at(s, pc), mem),
    ensures
        run_from(folded(s), label_map(s), mem, pc, steps, max) == run_from(s, label_map(s), mem, pc, steps, max),
    decreases max - steps,
{
    lemma_folded_at(s);
    if pc < s.len() && steps + 1 <= max {
        let known = known_at(s, pc);
        let i = s[pc as int];
        assert(folded(s)[pc as int] == fold_step(known, i).1);
        assert(fold_step_defined(known, i));
        assert(known_at(s, pc + 1) == fold_step(known, i).0);
        match i {
            InstrV::BinOp { dst, op, left, right } => {
                lemma_subst_loads(known, mem, left);
                lemma_subst_loads(known, mem, right);
                match addr_key(dst) {
                    Some(key) => {
                        let v = op_value(op, load_value(mem, left), load_value(mem, right)) as i64;
                        lemma_agrees_write(known, mem, key, v, v);
                    },
                    None => {},
                }
            },
            InstrV::Copy { dst, src } => {
                lemma_subst_loads(known, mem, src);
                match addr_key(dst) {
                    Some(key) => {
                        lemma_agrees_write(known, mem, key, load_value(mem, src), load_value(mem, src));
                    },
                    None => {},
                }
            },
            InstrV::Goto(l) => {
                lemma_label_map_last(s, l);
                lemma_agrees_write(known, mem, seq![], 0, 0);
            },
            InstrV::IfGoto { cond: _, label } => {
                lemma_label_map_last(s, label);
                lemma_agrees_write(known, mem, seq![], 0, 0);
            },
            _ => {
                lemma_agrees_write(known, mem, seq![], 0, 0);
            },
        }
        match step(s, label_map(s), mem, pc) {
            Step::Next(m1, p1) => {
                assert(step(folded(s), label_map(s), mem, pc) == Step::Next(m1, p1));
                assert(p1 < s.len() ==> agrees(known_at(s, p1), m1));
                lemma_fold_run(s, m1, p1, steps + 1, max);
            },
            _ => {
                assert(step(folded(s), label_map(s), mem, pc) == step(s, label_map(s), mem, pc));
            },
        }
    }
}

/// Folding leaves every label where it was, and makes no other instruction
/// a label.
proof fn lemma_folded_labels(s: Seq<InstrV>)
    ensures
        label_map(folded(s)) == label_map(s),
{
    lemma_folded_at(s);
    assert forall|i: int| 0 <= i < s.len() implies (#[trigger] s[i] is Label || folded(s)[i] is Label) ==> s[i]
        == folded(s)[i] by {
        let k = known_at(s, i as nat);
        assert(folded(s)[i] == fold_step(k, s[i]).1);
        match s[i] {
            InstrV::BinOp { dst, op, left, right } => {
                assert(!(fold_step(k, s[i]).1 is Label));
            },
            InstrV::Copy { dst, src } => {
                assert(!(fold_step(k, s[i]).1 is Label));
            },
            _ => {},
        }
    }
    lemma_label_map_same(s, folded(s));
}

/// Constant folding changes no run: from the start, or from just past any
/// label (where a call of that function starts), the folded code ends the
/// same way as `s`, with the same value and memory, after the same number
/// of steps, as long as folding itself computes no faulty operation.
pub proof fn law_folding_keeps_runs(s: Seq<InstrV>, mem: Map<Seq<char>, i64>, max: nat)
    requires
        s.len() <= usize::MAX,
        folding_defined(s),
    ensures
        label_map(folded(s)) == label_map(s),
        run_outcome(folded(s), mem, 0, max) == run_outcome(s, mem, 0, max),
        forall|l: Seq<char>|
            #[trigger] label_map(s).contains_key(l) ==> run_outcome(folded(s), mem, (label_map(s)[l] + 1) as nat, max)
                == run_outcome(s, mem, (label_map(s)[l] + 1) as nat, max),
{
    lemma_folded_labels(s);
    lemma_agrees_empty(mem);
    lemma_fold_run(s, mem, 0, 0, max);
    assert forall|l: Seq<char>| #[trigger] label_map(s).contains_key(l) implies run_outcome(
        folded(s),
        mem,
        (label_map(s)[l] + 1) as nat,
        max,
    ) == run_outcome(s, mem, (label_map(s)[l] + 1) as nat, max) by {
        lemma_label_map_last(s, l);
        let v = label_map(s)[l] as nat;
        assert(known_at(s, v + 1) == fold_step(known_at(s, v), s[v as int]).0);
        assert(known_at(s, v + 1) == Map::<Seq<char>, i64>::empty());
        lemma_agrees_empty(mem);
        lemma_fold_run(s, mem, v + 1, 0, max);
    }
}

/// Whether `s[i]; s[i + 1int]` is a pair `t = x; y = t`.
pub open spec fn pair_here(s: Seq<InstrV>, i: nat) -> bool {
    i + 1 < s.len() && is_copy_through(s[i as int], s[i + 1int])
}

/// Whether the collapsing scan stands at index `i` of `s`: `i` is not the
/// second instruction of a pair it collapsed.
pub open spec fn scan_at(s: Seq<InstrV>, i: nat) -> bool
    decreases i,
{
    if i == 0 {
        true
    } else {
        !(scan_at(s, (i - 1) as nat) && pair_here(s, (i - 1) as nat))
    }
}

/// Where index `i` of `s` lands in the collapsed code.
pub open spec fn cpos(s: Seq<InstrV>, i: nat) -> nat
    decreases i,
{
    if i == 0 {
        0
    } else {
        cpos(s, (i - 1) as nat) + if scan_at(s, (i - 1) as nat) { 1nat } else { 0nat }
    }
}

/// What collapsing emits where its scan stands at index `i`.
pub open spec fn collapsed_at(s: Seq<InstrV>, i: nat) -> InstrV {
    if pair_here(s, i) {
        InstrV::Copy { dst: s[i + 1int]->Copy_dst, src: s[i as int]->Copy_src }
    } else {
        s[i as int]
    }
}

proof fn lemma_cpos_mono(s: Seq<InstrV>, i: nat, j: nat)
    requires
        i <= j,
    ensures
        cpos(s, i) <= cpos(s, j),
        scan_at(s, i) && i < j ==> cpos(s, i) < cpos(s, j),
    decreases j - i,
{
    if i < j {
        lemma_cpos_mono(s, i, (j - 1) as nat);
    }
}

proof fn lemma_cpos_le(s: Seq<InstrV>, i: nat)
    ensures
        cpos(s, i) <= i,
    decreases i,
{
    if i > 0 {
        lemma_cpos_le(s, (i - 1) as nat);
    }
}

proof fn lemma_cpos_onto(s: Seq<InstrV>, i: nat, k: nat) -> (j: nat)
    requires
        k < cpos(s, i),
    ensures
        j < i,
        scan_at(s, j),
        cpos(s, j) == k,
    decreases i,
{
    let p = (i - 1) as nat;
    if k < cpos(s, p) {
        lemma_cpos_onto(s, p, k)
    } else {
        p
    }
}

proof fn lemma_collapsed_suffix(s: Seq<InstrV>, i: nat)
    requires
        i <= s.len(),
        scan_at(s, i),
    ensures
        collapsed(s.skip(i as int)).len() == cpos(s, s.len()) - cpos(s, i),
        forall|j: nat|
            i <= j < s.len() && scan_at(s, j) ==> #[trigger] collapsed(s.skip(i as int))[cpos(s, j) - cpos(s, i)]
                == collapsed_at(s, j),
    decreases s.len() - i,
{
    lemma_cpos_mono(s, i, s.len());
    if i < s.len() {
        let rest = s.skip(i as int);
        assert(rest[0] == s[i as int]);
        if pair_here(s, i) {
            assert(rest[1] == s[i + 1int]);
            assert(rest.skip(2) =~= s.skip(i + 2int));
            assert(!scan_at(s, i + 1));
            assert(scan_at(s, i + 2));
            lemma_collapsed_suffix(s, i + 2);
            let r1 = collapsed(s.skip(i + 2int));
            let r = collapsed(rest);
            assert(r == seq![collapsed_at(s, i)] + r1);
            assert(cpos(s, i + 1) == cpos(s, i) + 1);
            assert(cpos(s, i + 2) == cpos(s, i + 1));
            assert forall|j: nat| i <= j < s.len() && scan_at(s, j) implies #[trigger] r[cpos(s, j) - cpos(s, i)]
                == collapsed_at(s, j) by {
                lemma_cpos_mono(s, j, s.len());
                if j > i {
                    assert(j != i + 1);
                    lemma_cpos_mono(s, i + 2, j);
                    assert(r[cpos(s, j) - cpos(s, i)] == r1[cpos(s, j) - cpos(s, i + 2)]);
                }
            }
        } else {
            assert(rest.skip(1) =~= s.skip(i + 1int));
            assert(scan_at(s, i + 1));
            lemma_collapsed_suffix(s, i + 1);
            let r1 = collapsed(s.skip(i + 1int));
            let r = collapsed(rest);
            assert(!(rest.len() >= 2 && is_copy_through(rest[0], rest[1]))) by {
                if rest.len() >= 2 {
                    assert(rest[1] == s[i + 1int]);
                }
            }
            assert(r == seq![collapsed_at(s, i)] + r1);
            assert forall|j: nat| i <= j < s.len() && scan_at(s, j) implies #[trigger] r[cpos(s, j) - cpos(s, i)]
                == collapsed_at(s, j) by {
                lemma_cpos_mono(s, j, s.len());
                if j > i {
                    lemma_cpos_mono(s, i + 1, j);
                    assert(r[cpos(s, j) - cpos(s, i)] == r1[cpos(s, j) - cpos(s, i + 1)]);
                }
            }
        }
    }
}

/// The collapsed code holds, at the landing index of each index where the
/// scan stands, what the scan emits there, and nothing else.
proof fn lemma_collapsed_at(s: Seq<InstrV>)
    ensures
        collapsed(s).len() == cpos(s, s.len()),
        forall|j: nat| j < s.len() && scan_at(s, j) ==> #[trigger] collapsed(s)[cpos(s, j) as int] == collapsed_at(s, j),
{
    lemma_collapsed_suffix(s, 0);
    assert(s.skip(0) =~= s);
    assert forall|j: nat| j < s.len() && scan_at(s, j) implies #[trigger] collapsed(s)[cpos(s, j) as int] == collapsed_at(
        s,
        j,
    ) by {
        assert(collapsed(s.skip(0))[cpos(s, j) - cpos(s, 0)] == collapsed_at(s, j));
    }
}

/// A label of `s` is never the second instruction of a collapsed pair, and
/// collapsing emits it as it is.
proof fn lemma_label_scanned(s: Seq<InstrV>, v: nat)
    requires
        v < s.len(),
        s[v as int] is Label,
    ensures
        scan_at(s, v),
        collapsed_at(s, v) == s[v as int],
        !pair_here(s, v),
{
}

/// After collapsing, a jump to a label goes to the landing index of where it
/// went before, and a label that was missing is still missing.
proof fn lemma_collapsed_labels(s: Seq<InstrV>, l: Seq<char>)
    requires
        s.len() <= usize::MAX,
    ensures
        label_map(collapsed(s)).contains_key(l) == label_map(s).contains_key(l),
        label_map(s).contains_key(l) ==> label_map(collapsed(s))[l] == cpos(s, label_map(s)[l] as nat),
{
    let out = collapsed(s);
    lemma_collapsed_at(s);
    lemma_cpos_le(s, s.len());
    lemma_label_map_last(s, l);
    lemma_label_map_last(out, l);
    if label_map(s).contains_key(l) {
        let v = label_map(s)[l] as nat;
        lemma_label_scanned(s, v);
        lemma_cpos_mono(s, v, s.len());
        assert(out[cpos(s, v) as int] == InstrV::Label(l));
        let w = label_map(out)[l] as nat;
        if w != cpos(s, v) {
            assert(w > cpos(s, v));
            let j = lemma_cpos_onto(s, s.len(), w);
            if j <= v {
                lemma_cpos_mono(s, j, v);
            }
            assert(out[w as int] == collapsed_at(s, j));
            assert(s[j as int] == InstrV::Label(l));
        }
    } else if label_map(out).contains_key(l) {
        let k = choose|k: int| 0 <= k < out.len() && out[k] == InstrV::Label(l);
        let j = lemma_cpos_onto(s, s.len(), k as nat);
        assert(out[k] == collapsed_at(s, j));
        assert(s[j as int] == InstrV::Label(l));
    }
}

/// Whether instruction `i` reads the memory cell named `k`.
pub open spec fn reads_key(i: InstrV, k: Seq<char>) -> bool {
    match i {
        InstrV::BinOp { dst: _, op: _, left, right } => addr_key(left) == Some(k) || addr_key(right) == Some(k),
        InstrV::Copy { dst: _, src } => addr_key(src) == Some(k),
        InstrV::IfGoto { cond, label: _ } => addr_key(cond) == Some(k),
        InstrV::Return(a) => addr_key(a) == Some(k),
        _ => false,
    }
}

/// Whether `k` is the cell of the temporary of a pair that collapsing
/// merges, a cell the collapsed code no longer writes.
pub open spec fn collapsed_cell(s: Seq<InstrV>, k: Seq<char>) -> bool {
    exists|i: nat| #[trigger] scan_at(s, i) && pair_here(s, i) && k == temp_text(s[i as int]->Copy_dst->Temp_0)
}

/// Whether no instruction that collapsing keeps reads a cell that the
/// collapsed code no longer writes.
pub open spec fn collapse_safe(s: Seq<InstrV>) -> bool {
    forall|j: nat, k: Seq<char>|
        j < s.len() && scan_at(s, j) && #[trigger] reads_key(s[j as int], k) ==> !collapsed_cell(s, k)
}

/// What memory `m` holds in cell `k`: 0 when nothing was written there.
pub open spec fn read_key(m: Map<Seq<char>, i64>, k: Seq<char>) -> i64 {
    if m.contains_key(k) {
        m[k]
    } else {
        0
    }
}

/// Whether two memories hold the same in every cell but those the collapsed
/// code of `s` no longer writes.
pub open spec fn same_outside(s: Seq<InstrV>, m1: Map<Seq<char>, i64>, m2: Map<Seq<char>, i64>) -> bool {
    forall|k: Seq<char>| !collapsed_cell(s, k) ==> #[trigger] read_key(m1, k) == read_key(m2, k)
}

proof fn lemma_load_outside(s: Seq<InstrV>, mo: Map<Seq<char>, i64>, mc: Map<Seq<char>, i64>, a: AddrV)
    requires
        same_outside(s, mo, mc),
        addr_key(a) is Some ==> !collapsed_cell(s, addr_key(a)->0),
    ensures
        load_value(mo, a) == load_value(mc, a),
{
    match addr_key(a) {
        Some(k) => {
            assert(read_key(mo, k) == read_key(mc, k));
        },
        None => {},
    }
}

proof fn lemma_write_outside(
    s: Seq<InstrV>,
    mo: Map<Seq<char>, i64>,
    mc: Map<Seq<char>, i64>,
    k: Seq<char>,
    v: i64,
)
    requires
        same_outside(s, mo, mc),
    ensures
        same_outside(s, mo.insert(k, v), mc.insert(k, v)),
        collapsed_cell(s, k) ==> same_outside(s, mo.insert(k, v), mc),
{
    assert forall|c: Seq<char>| !collapsed_cell(s, c) implies #[trigger] read_key(mo.insert(k, v), c) == read_key(
        mc.insert(k, v),
        c,
    ) by {
        assert(read_key(mo, c) == read_key(mc, c));
    }
    if collapsed_cell(s, k) {
        assert forall|c: Seq<char>| !collapsed_cell(s, c) implies #[trigger] read_key(mo.insert(k, v), c) == read_key(
            mc,
            c,
        ) by {
            assert(read_key(mo, c) == read_key(mc, c));
        }
    }
}

proof fn lemma_safe_read(s: Seq<InstrV>, j: nat, a: AddrV)
    requires
        collapse_safe(s),
        j < s.len(),
        scan_at(s, j),
        addr_key(a) is Some ==> reads_key(s[j as int], addr_key(a)->0),
    ensures
        addr_key(a) is Some ==> !collapsed_cell(s, addr_key(a)->0),
{
}

/// A run of `s` that finishes, from an index where the collapsing scan
/// stands, and a run of the collapsed code from the landing index, in
/// memories alike outside the cells it no longer writes, with no more steps
/// taken: the second finishes too, with the same value, in a memory alike
/// outside those cells.
#[verifier::rlimit(100)]
proof fn lemma_collapse_run(
    s: Seq<InstrV>,
    mo: Map<Seq<char>, i64>,
    mc: Map<Seq<char>, i64>,
    pc: nat,
    so: nat,
    sc: nat,
    max: nat,
    m1: Map<Seq<char>, i64>,
    v: Option<i64>,
) -> (m2: Map<Seq<char>, i64>)
    requires
        s.len() <= usize::MAX,
        collapse_safe(s),
        pc <= s.len(),
        scan_at(s, pc),
        sc <= so,
        same_outside(s, mo, mc),
        run_from(s, label_map(s), mo, pc, so, max) == Outcome::Finished(m1, v),
    ensures
        run_from(collapsed(s), label_map(collapsed(s)), mc, cpos(s, pc), sc, max) == Outcome::Finished(m2, v),
        same_outside(s, m1, m2),
    decreases max - so,
{
    let out = collapsed(s);
    let ls = label_map(s);
    let lc = label_map(out);
    lemma_collapsed_at(s);
    lemma_cpos_le(s, s.len());
    if pc == s.len() {
        mc
    } else {
        lemma_cpos_mono(s, pc, s.len());
        assert(so + 1 <= max);
        let cp = cpos(s, pc);
        if pair_here(s, pc) {
            let t = s[pc as int]->Copy_dst->Temp_0;
            let x = s[pc as int]->Copy_src;
            let y = s[pc + 1int]->Copy_dst;
            let tk = temp_text(t);
            let lx = load_value(mo, x);
            let mo1 = mo.insert(tk, lx);
            assert(step(s, ls, mo, pc) == Step::Next(mo1, pc + 1));
            assert(run_from(s, ls, mo1, pc + 1, so + 1, max) == Outcome::Finished(m1, v));
            assert(so + 2 <= max);
            assert(load_value(mo1, AddrV::Temp(t)) == lx);
            assert(addr_key(y) is Some);
            let yk = addr_key(y)->0;
            let mo2 = mo1.insert(yk, lx);
            assert(step(s, ls, mo1, pc + 1) == Step::Next(mo2, pc + 2));
            assert(run_from(s, ls, mo2, pc + 2, so + 2, max) == Outcome::Finished(m1, v));
            lemma_safe_read(s, pc, x);
            lemma_load_outside(s, mo, mc, x);
            let mc1 = mc.insert(yk, lx);
            assert(out[cp as int] == InstrV::Copy { dst: y, src: x });
            assert(step(out, lc, mc, cp) == Step::Next(mc1, cp + 1));
            assert(cpos(s, pc + 1) == cp + 1);
            assert(cpos(s, pc + 2) == cp + 1);
            assert(scan_at(s, pc + 2));
            assert(collapsed_cell(s, tk));
            lemma_write_outside(s, mo, mc, tk, lx);
            lemma_write_outside(s, mo1, mc, yk, lx);
            lemma_collapse_run(s, mo2, mc1, pc + 2, so + 2, sc + 1, max, m1, v)
        } else {
            assert(out[cp as int] == s[pc as int]);
            assert(scan_at(s, pc + 1));
            assert(cpos(s, pc + 1) == cp + 1);
            match s[pc as int] {
                InstrV::BinOp { dst, op, left, right } => {
                    lemma_safe_read(s, pc, left);
                    lemma_safe_read(s, pc, right);
                    lemma_load_outside(s, mo, mc, left);
                    lemma_load_outside(s, mo, mc, right);
                    let l = load_value(mo, left);
                    let r = load_value(mo, right);
                    assert(op_defined(op, l, r) && addr_key(dst) is Some);
                    let k = addr_key(dst)->0;
                    let val = op_value(op, l, r) as i64;
                    assert(step(s, ls, mo, pc) == Step::Next(mo.insert(k, val), pc + 1));
                    assert(step(out, lc, mc, cp) == Step::Next(mc.insert(k, val), cp + 1));
                    lemma_write_outside(s, mo, mc, k, val);
                    lemma_collapse_run(s, mo.insert(k, val), mc.insert(k, val), pc + 1, so + 1, sc + 1, max, m1, v)
                },
                InstrV::Copy { dst, src } => {
                    lemma_safe_read(s, pc, src);
                    lemma_load_outside(s, mo, mc, src);
                    assert(addr_key(dst) is Some);
                    let k = addr_key(dst)->0;
                    let val = load_value(mo, src);
                    assert(step(s, ls, mo, pc) == Step::Next(mo.insert(k, val), pc + 1));
                    assert(step(out, lc, mc, cp) == Step::Next(mc.insert(k, val), cp + 1));
                    lemma_write_outside(s, mo, mc, k, val);
                    lemma_collapse_run(s, mo.insert(k, val), mc.insert(k, val), pc + 1, so + 1, sc + 1, max, m1, v)
                },
                InstrV::Goto(l) => {
                    assert(ls.contains_key(l));
                    lemma_collapsed_labels(s, l);
                    lemma_label_map_last(s, l);
                    let w = ls[l] as nat;
                    lemma_label_scanned(s, w);
                    assert(scan_at(s, w + 1));
                    assert(cpos(s, w + 1) == cpos(s, w) + 1);
                    assert(step(s, ls, mo, pc) == Step::Next(mo, w + 1));
                    assert(step(out, lc, mc, cp) == Step::Next(mc, cpos(s, w + 1)));
                    lemma_collapse_run(s, mo, mc, w + 1, so + 1, sc + 1, max, m1, v)
                },
                InstrV::IfGoto { cond, label } => {
                    lemma_safe_read(s, pc, cond);
                    lemma_load_outside(s, mo, mc, cond);
                    if load_value(mo, cond) != 0 {
                        assert(ls.contains_key(label));
                        lemma_collapsed_labels(s, label);
                        lemma_label_map_last(s, label);
                        let w = ls[label] as nat;
                        lemma_label_scanned(s, w);
                        assert(scan_at(s, w + 1));
                        assert(cpos(s, w + 1) == cpos(s, w) + 1);
                        assert(step(s, ls, mo, pc) == Step::Next(mo, w + 1));
                        assert(step(out, lc, mc, cp) == Step::Next(mc, cpos(s, w + 1)));
                        lemma_collapse_run(s, mo, mc, w + 1, so + 1, sc + 1, max, m1, v)
                    } else {
                        assert(step(s, ls, mo, pc) == Step::Next(mo, pc + 1));
                        assert(step(out, lc, mc, cp) == Step::Next(mc, cp + 1));
                        lemma_collapse_run(s, mo, mc, pc + 1, so + 1, sc + 1, max, m1, v)
                    }
                },
                InstrV::Label(_) => {
                    assert(step(s, ls, mo, pc) == Step::Next(mo, pc + 1));
                    assert(step(out, lc, mc, cp) == Step::Next(mc, cp + 1));
                    lemma_collapse_run(s, mo, mc, pc + 1, so + 1, sc + 1, max, m1, v)
                },
                InstrV::Return(a) => {
                    lemma_safe_read(s, pc, a);
                    lemma_load_outside(s, mo, mc, a);
                    mc
                },
                InstrV::Halt => mc,
            }
        }
    }
}

/// Collapsing copies through temporaries keeps what a finished run gives,
/// as long as no instruction it keeps reads a temporary it stops writing: a
/// run of `s` that finishes with a value finishes the collapsed code with the
/// same value, in a memory that differs only in those temporaries. The
/// collapsed code takes no more steps, so the step limit does not stop it.
pub proof fn law_collapse_keeps_finished_runs(
    s: Seq<InstrV>,
    mem: Map<Seq<char>, i64>,
    max: nat,
    end: Map<Seq<char>, i64>,
    v: Option<i64>,
)
    requires
        s.len() <= usize::MAX,
        collapse_safe(s),
        run_outcome(s, mem, 0, max) == Outcome::Finished(end, v),
    ensures
        run_outcome(collapsed(s), mem, 0, max) matches Outcome::Finished(end2, v2) && v2 == v && same_outside(
            s,
            end,
            end2,
        ),
{
    let m2 = lemma_collapse_run(s, mem, mem, 0, 0, 0, max, end, v);
}

/// The run of code without jumps from its first instruction, in memory `m`,
/// after `steps` steps, with at most `max` steps in all.
pub open spec fn seq_run(t: Seq<InstrV>, m: Map<Seq<char>, i64>, steps: nat, max: nat) -> Outcome
    decreases t.len(),
{
    if t.len() == 0 {
        Outcome::Finished(m, None)
    } else if steps + 1 > max {
        Outcome::StepLimit(m)
    } else {
        match step(t, Map::empty(), m, 0) {
            Step::Next(m1, _) => seq_run(t.drop_first(), m1, steps + 1, max),
            Step::Stop(v) => Outcome::Finished(m, v),
            Step::Fault => Outcome::Fault,
        }
    }
}

/// Whether `s` holds no jump.
pub open spec fn jump_free(s: Seq<InstrV>) -> bool {
    forall|i: int| 0 <= i < s.len() ==> !(#[trigger] s[i] is Goto || s[i] is IfGoto)
}

proof fn lemma_run_is_seq_run(
    s: Seq<InstrV>,
    labels: Map<Seq<char>, usize>,
    m: Map<Seq<char>, i64>,
    pc: nat,
    steps: nat,
    max: nat,
)
    requires
        jump_free(s),
        pc <= s.len(),
    ensures
        run_from(s, labels, m, pc, steps, max) == seq_run(s.skip(pc as int), m, steps, max),
    decreases max - steps,
{
    if pc < s.len() && steps + 1 <= max {
        let t = s.skip(pc as int);
        assert(t[0] == s[pc as int]);
        assert(t.drop_first() =~= s.skip(pc + 1int));
        assert(!(s[pc as int] is Goto || s[pc as int] is IfGoto));
        match step(s, labels, m, pc) {
            Step::Next(m1, p1) => {
                assert(p1 == pc + 1);
                assert(step(t, Map::empty(), m, 0) matches Step::Next(m2, _) && m2 == m1);
                lemma_run_is_seq_run(s, labels, m1, pc + 1, steps + 1, max);
            },
            _ => {
                assert(step(t, Map::empty(), m, 0) == step(s, labels, m, pc));
            },
        }
    } else if pc == s.len() {
        assert(s.skip(pc as int).len() == 0);
    }
}

/// Whether every variable that `a` names, when it names one, is named like
/// no temporary.
pub open spec fn plain_read(a: AddrV) -> bool {
    a matches AddrV::Var(name) ==> plain_name(name)
}

/// Whether an operation or copy reads neither a variable named like a
/// temporary nor the temporary it writes.
pub open spec fn reads_apart(i: InstrV) -> bool {
    match i {
        InstrV::BinOp { dst, op: _, left, right } => plain_read(left) && plain_read(right) && (dst is Temp ==> left
            != dst && right != dst),
        InstrV::Copy { dst, src } => plain_read(src) && (dst is Temp ==> src != dst),
        InstrV::Return(a) => plain_read(a),
        _ => true,
    }
}

/// Whether two memories hold the same in every cell not named like a
/// temporary, and in the cells of the temporaries `needed`.
pub open spec fn alike_on(needed: Set<usize>, m1: Map<Seq<char>, i64>, m2: Map<Seq<char>, i64>) -> bool {
    &&& forall|k: Seq<char>| plain_name(k) ==> #[trigger] read_key(m1, k) == read_key(m2, k)
    &&& forall|n: usize| needed.contains(n) ==> #[trigger] read_key(m1, temp_text(n)) == read_key(m2, temp_text(n))
}

proof fn lemma_alike_load(needed: Set<usize>, m1: Map<Seq<char>, i64>, m2: Map<Seq<char>, i64>, a: AddrV)
    requires
        alike_on(needed, m1, m2),
        plain_read(a),
        temps_read(a).subset_of(needed),
    ensures
        load_value(m1, a) == load_value(m2, a),
{
    match a {
        AddrV::Var(name) => {
            assert(read_key(m1, name) == read_key(m2, name));
        },
        AddrV::Temp(n) => {
            assert(temps_read(a).contains(n));
            assert(read_key(m1, temp_text(n)) == read_key(m2, temp_text(n)));
        },
        _ => {},
    }
}

proof fn lemma_alike_write(
    needed: Set<usize>,
    later: Set<usize>,
    m1: Map<Seq<char>, i64>,
    m2: Map<Seq<char>, i64>,
    dst: AddrV,
    v: i64,
)
    requires
        alike_on(needed, m1, m2),
        addr_key(dst) is Some,
        forall|n: usize| later.contains(n) && dst != AddrV::Temp(n) ==> needed.contains(n),
    ensures
        alike_on(later, m1.insert(addr_key(dst)->0, v), m2.insert(addr_key(dst)->0, v)),
{
    let k = addr_key(dst)->0;
    assert forall|c: Seq<char>| plain_name(c) implies #[trigger] read_key(m1.insert(k, v), c) == read_key(
        m2.insert(k, v),
        c,
    ) by {
        assert(read_key(m1, c) == read_key(m2, c));
    }
    assert forall|n: usize| later.contains(n) implies #[trigger] read_key(m1.insert(k, v), temp_text(n)) == read_key(
        m2.insert(k, v),
        temp_text(n),
    ) by {
        if temp_text(n) != k {
            assert(dst != AddrV::Temp(n));
            assert(read_key(m1, temp_text(n)) == read_key(m2, temp_text(n)));
        }
    }
}

proof fn lemma_alike_drop(needed: Set<usize>, later: Set<usize>, m1: Map<Seq<char>, i64>, m2: Map<Seq<char>, i64>, d: usize, v: i64)
    requires
        alike_on(needed, m1, m2),
        !later.contains(d),
        forall|n: usize| later.contains(n) ==> needed.contains(n),
    ensures
        alike_on(later, m1.insert(temp_text(d), v), m2),
{
    let k = temp_text(d);
    assert forall|c: Seq<char>| plain_name(c) implies #[trigger] read_key(m1.insert(k, v), c) == read_key(m2, c) by {
        assert(c != temp_text(d));
        assert(read_key(m1, c) == read_key(m2, c));
    }
    assert forall|n: usize| later.contains(n) implies #[trigger] read_key(m1.insert(k, v), temp_text(n)) == read_key(
        m2,
        temp_text(n),
    ) by {
        if temp_text(n) == k {
            crate::evaluation::lemma_temp_text_injective(n, d);
        }
        assert(read_key(m1, temp_text(n)) == read_key(m2, temp_text(n)));
    }
}

proof fn lemma_live_jump_free(s: Seq<InstrV>)
    requires
        jump_free(s),
    ensures
        jump_free(live_pass(s).0),
    decreases s.len(),
{
    if s.len() > 0 {
        assert forall|i: int| 0 <= i < s.drop_first().len() implies !(#[trigger] s.drop_first()[i] is Goto
            || s.drop_first()[i] is IfGoto) by {
            assert(s.drop_first()[i] == s[i + 1]);
        }
        lemma_live_jump_free(s.drop_first());
        let kept = live_pass(s.drop_first()).0;
        assert(!(s[0] is Goto || s[0] is IfGoto));
        assert forall|i: int| 0 <= i < (seq![s[0]] + kept).len() implies !(#[trigger] (seq![s[0]] + kept)[i] is Goto
            || (seq![s[0]] + kept)[i] is IfGoto) by {
            if i > 0 {
                assert((seq![s[0]] + kept)[i] == kept[i - 1]);
            }
        }
    }
}

/// A run of jump-free `s` that finishes, and a run of `s` without its dead
/// definitions, in memories alike outside temporaries and in the
/// temporaries still needed, with no more steps taken: the second finishes
/// too, with the same value, in a memory alike outside temporaries.
#[verifier::rlimit(100)]
proof fn lemma_live_run(
    s: Seq<InstrV>,
    mo: Map<Seq<char>, i64>,
    mr: Map<Seq<char>, i64>,
    so: nat,
    sr: nat,
    max: nat,
    m1: Map<Seq<char>, i64>,
    v: Option<i64>,
) -> (m2: Map<Seq<char>, i64>)
    requires
        jump_free(s),
        forall|i: int| 0 <= i < s.len() ==> #[trigger] reads_apart(s[i]),
        sr <= so,
        alike_on(live_pass(s).1, mo, mr),
        seq_run(s, mo, so, max) == Outcome::Finished(m1, v),
    ensures
        seq_run(live_pass(s).0, mr, sr, max) == Outcome::Finished(m2, v),
        alike_on(Set::empty(), m1, m2),
    decreases s.len(),
{
    if s.len() == 0 {
        mr
    } else {
        let rest = s.drop_first();
        let kept = live_pass(rest).0;
        let needed = live_pass(rest).1;
        let x = s[0];
        assert(so + 1 <= max);
        assert(reads_apart(x));
        assert(!(x is Goto || x is IfGoto));
        assert forall|i: int| 0 <= i < rest.len() implies !(#[trigger] rest[i] is Goto || rest[i] is IfGoto) by {
            assert(rest[i] == s[i + 1]);
        }
        assert forall|i: int| 0 <= i < rest.len() implies #[trigger] reads_apart(rest[i]) by {
            assert(rest[i] == s[i + 1]);
        }
        let one = seq![x] + kept;
        assert(one[0] == x);
        assert(one.drop_first() =~= kept);
        match x {
            InstrV::BinOp { dst, op, left, right } => {
                let n1 = needed + temps_read(left) + temps_read(right);
                let nb = needed_before(dst, n1);
                assert(temps_read(left).subset_of(nb));
                assert(temps_read(right).subset_of(nb));
                lemma_alike_load(nb, mo, mr, left);
                lemma_alike_load(nb, mo, mr, right);
                let l = load_value(mo, left);
                let r = load_value(mo, right);
                assert(op_defined(op, l, r) && addr_key(dst) is Some);
                let k = addr_key(dst)->0;
                let val = op_value(op, l, r) as i64;
                let mo1 = mo.insert(k, val);
                assert(step(s, Map::empty(), mo, 0) == Step::Next(mo1, 1));
                assert(seq_run(rest, mo1, so + 1, max) == Outcome::Finished(m1, v));
                if dst_kept(dst, n1) {
                    assert(live_pass(s).0 == one);
                    assert(step(one, Map::empty(), mr, 0) == Step::Next(mr.insert(k, val), 1));
                    lemma_alike_write(nb, needed, mo, mr, dst, val);
                    lemma_live_run(rest, mo1, mr.insert(k, val), so + 1, sr + 1, max, m1, v)
                } else {
                    let d = dst->Temp_0;
                    assert(live_pass(s).0 == kept);
                    lemma_alike_drop(nb, needed, mo, mr, d, val);
                    lemma_live_run(rest, mo1, mr, so + 1, sr, max, m1, v)
                }
            },
            InstrV::Copy { dst, src } => {
                let n1 = needed + temps_read(src);
                let nb = needed_before(dst, n1);
                assert(temps_read(src).subset_of(nb));
                lemma_alike_load(nb, mo, mr, src);
                assert(addr_key(dst) is Some);
                let k = addr_key(dst)->0;
                let val = load_value(mo, src);
                let mo1 = mo.insert(k, val);
                assert(step(s, Map::empty(), mo, 0) == Step::Next(mo1, 1));
                assert(seq_run(rest, mo1, so + 1, max) == Outcome::Finished(m1, v));
                if dst_kept(dst, n1) {
                    assert(live_pass(s).0 == one);
                    assert(step(one, Map::empty(), mr, 0) == Step::Next(mr.insert(k, val), 1));
                    lemma_alike_write(nb, needed, mo, mr, dst, val);
                    lemma_live_run(rest, mo1, mr.insert(k, val), so + 1, sr + 1, max, m1, v)
                } else {
                    let d = dst->Temp_0;
                    assert(live_pass(s).0 == kept);
                    lemma_alike_drop(nb, needed, mo, mr, d, val);
                    lemma_live_run(rest, mo1, mr, so + 1, sr, max, m1, v)
                }
            },
            InstrV::Return(a) => {
                assert(live_pass(s).0 == one);
                assert(temps_read(a).subset_of(needed + temps_read(a)));
                lemma_alike_load(needed + temps_read(a), mo, mr, a);
                mr
            },
            InstrV::Label(_) => {
                assert(live_pass(s).0 == one);
                assert(step(s, Map::empty(), mo, 0) == Step::Next(mo, 1));
                assert(step(one, Map::empty(), mr, 0) == Step::Next(mr, 1));
                lemma_live_run(rest, mo, mr, so + 1, sr + 1, max, m1, v)
            },
            InstrV::Halt => {
                assert(live_pass(s).0 == one);
                mr
            },
            _ => mr,
        }
    }
}

/// Dropping definitions of temporaries that nothing reads keeps what a
/// finished run of code without jumps gives, as long as no instruction reads
/// a variable named like a temporary or the temporary it writes: the run of
/// the shorter code finishes too, with the same value, and leaves every
/// cell not named like a temporary as the run of `s` does.
pub proof fn law_dead_defs_keep_finished_runs(
    s: Seq<InstrV>,
    mem: Map<Seq<char>, i64>,
    max: nat,
    end: Map<Seq<char>, i64>,
    v: Option<i64>,
)
    requires
        jump_free(s),
        forall|i: int| 0 <= i < s.len() ==> #[trigger] reads_apart(s[i]),
        run_outcome(s, mem, 0, max) == Outcome::Finished(end, v),
    ensures
        run_outcome(live_defs(s), mem, 0, max) matches Outcome::Finished(end2, v2) && v2 == v && forall|k: Seq<char>|
            plain_name(k) ==> #[trigger] read_key(end, k) == read_key(end2, k),
{
    lemma_run_is_seq_run(s, label_map(s), mem, 0, 0, max);
    assert(s.skip(0) =~= s);
    lemma_live_jump_free(s);
    lemma_run_is_seq_run(live_defs(s), label_map(live_defs(s)), mem, 0, 0, max);
    assert(live_defs(s).skip(0) =~= live_defs(s));
    let m2 = lemma_live_run(s, mem, mem, 0, 0, max, end, v);
    assert forall|k: Seq<char>| plain_name(k) implies #[trigger] read_key(end, k) == read_key(m2, k) by {
        assert(alike_on(Set::empty(), end, m2));
    }
}

/// Whether instruction `i` reads temporary `n` as an operand.
pub open spec fn reads_temp(i: InstrV, n: usize) -> bool {
    match i {
        InstrV::BinOp { dst: _, op: _, left, right } => left == AddrV::Temp(n) || right == AddrV::Temp(n),
        InstrV::Copy { dst: _, src } => src == AddrV::Temp(n),
        InstrV::IfGoto { cond, label: _ } => cond == AddrV::Temp(n),
        InstrV::Return(a) => a == AddrV::Temp(n),
        _ => false,
    }
}

/// Whether instruction `i` writes temporary `n`.
pub open spec fn writes_temp(i: InstrV, n: usize) -> bool {
    match i {
        InstrV::BinOp { dst, op: _, left: _, right: _ } => dst == AddrV::Temp(n),
        InstrV::Copy { dst, src: _ } => dst == AddrV::Temp(n),
        _ => false,
    }
}

/// Whether, from index `from` of `s` on in program order, some instruction
/// reads temporary `n` before any writes it. An instruction that both reads
/// and writes `n` counts as a write.
pub open spec fn read_before_write(s: Seq<InstrV>, from: nat, n: usize) -> bool {
    exists|j: nat|
        from <= j < s.len() && #[trigger] reads_temp(s[j as int], n) && !writes_temp(s[j as int], n) && forall|k: nat|
            from <= k < j ==> !#[trigger] writes_temp(s[k as int], n)
}

/// Whether instruction `i` of `s` survives the removal of dead definitions:
/// every instruction does but an operation or copy into a temporary that
/// neither reads that temporary itself nor is followed, in program order,
/// by a read of it before it is written again.
pub open spec fn def_live(s: Seq<InstrV>, i: nat) -> bool {
    match s[i as int] {
        InstrV::BinOp { dst: AddrV::Temp(n), op: _, left: _, right: _ } => reads_temp(s[i as int], n)
            || read_before_write(s, i + 1, n),
        InstrV::Copy { dst: AddrV::Temp(n), src: _ } => reads_temp(s[i as int], n) || read_before_write(s, i + 1, n),
        _ => true,
    }
}

/// The instructions of `s` from index `i` on that survive, in order.
pub open spec fn live_from(s: Seq<InstrV>, i: nat) -> Seq<InstrV>
    decreases s.len() - i,
{
    if i >= s.len() {
        seq![]
    } else if def_live(s, i) {
        seq![s[i as int]] + live_from(s, i + 1)
    } else {
        live_from(s, i + 1)
    }
}

proof fn lemma_read_before_write_step(s: Seq<InstrV>, i: nat, n: usize)
    requires
        i < s.len(),
    ensures
        read_before_write(s, i, n) <==> !writes_temp(s[i as int], n) && (reads_temp(s[i as int], n)
            || read_before_write(s, i + 1, n)),
{
    if read_before_write(s, i, n) {
        let j = choose|j: nat|
            i <= j < s.len() && #[trigger] reads_temp(s[j as int], n) && !writes_temp(s[j as int], n) && forall|
                k: nat,
            | i <= k < j ==> !#[trigger] writes_temp(s[k as int], n);
        if j > i {
            assert(!writes_temp(s[i as int], n));
            assert(read_before_write(s, i + 1, n));
        }
    }
    if !writes_temp(s[i as int], n) {
        if reads_temp(s[i as int], n) {
            assert(forall|k: nat| i <= k < i ==> !#[trigger] writes_temp(s[k as int], n));
            assert(read_before_write(s, i, n));
        } else if read_before_write(s, i + 1, n) {
            let j = choose|j: nat|
                i + 1 <= j < s.len() && #[trigger] reads_temp(s[j as int], n) && !writes_temp(s[j as int], n)
                    && forall|k: nat| i + 1 <= k < j ==> !#[trigger] writes_temp(s[k as int], n);
            assert forall|k: nat| i <= k < j implies !#[trigger] writes_temp(s[k as int], n) by {}
            assert(read_before_write(s, i, n));
        }
    }
}

proof fn lemma_live_pass_at(s: Seq<InstrV>, i: nat)
    requires
        i <= s.len(),
    ensures
        live_pass(s.skip(i as int)).0 == live_from(s, i),
        live_pass(s.skip(i as int)).1 == Set::new(|n: usize| read_before_write(s, i, n)),
    decreases s.len() - i,
{
    let t = s.skip(i as int);
    if i == s.len() {
        assert(t.len() == 0);
        assert(Set::new(|n: usize| read_before_write(s, i, n)) =~= Set::<usize>::empty());
    } else {
        lemma_live_pass_at(s, i + 1);
        assert(t.drop_first() =~= s.skip(i + 1int));
        assert(t[0] == s[i as int]);
        let needed = live_pass(s.skip(i + 1int)).1;
        let x = s[i as int];
        assert forall|n: usize| live_pass(t).1.contains(n) <==> #[trigger] read_before_write(s, i, n) by {
            lemma_read_before_write_step(s, i, n);
            assert(needed.contains(n) == read_before_write(s, i + 1, n));
        }
        assert(live_pass(t).1 =~= Set::new(|n: usize| read_before_write(s, i, n)));
        match x {
            InstrV::BinOp { dst: AddrV::Temp(d), op: _, left, right } => {
                assert(needed.contains(d) == read_before_write(s, i + 1, d));
            },
            InstrV::Copy { dst: AddrV::Temp(d), src } => {
                assert(needed.contains(d) == read_before_write(s, i + 1, d));
            },
            _ => {},
        }
    }
}

/// Removing dead definitions keeps exactly the instructions that survive:
/// an operation or copy into a temporary is dropped only when it does not
/// read that temporary and no later instruction, in program order, reads it
/// before it is written again, whatever jumps stand between; every other
/// instruction stays, in order.
pub proof fn law_dead_defs_dropped_exactly(s: Seq<InstrV>)
    ensures
        live_defs(s) == live_from(s, 0),
{
    lemma_live_pass_at(s, 0);
    assert(s.skip(0) =~= s);
}

} // verus!
