//! An interpreter for three-address code.
//!
//! Memory maps names to `i64` values. A variable is stored under its name
//! and temporary `n` under the name `t<n>`, so the two share a cell when the
//! names coincide. A name never written reads as 0, `true` as 1 and `false`
//! as 0. The memory survives from one run to the next, so several functions
//! of one program share their variables.
use vstd::prelude::*;
use vstd::hash_map::StringHashMap;

use crate::tac::{
    addr_key, apply_op, instrs_view, key_of, op_defined, op_value, Addr, AddrV, Instr, InstrV,
};
use crate::order::{lemma_sorted_unique, sort_texts, string_views, strictly_sorted};
use crate::text::{decimal, push_decimal, push_signed_decimal, signed_decimal};

verus! {

/// The value that reading an address gives in memory `mem`.
pub open spec fn load_value(mem: Map<Seq<char>, i64>, a: AddrV) -> i64 {
    match a {
        AddrV::IntLit(n) => n,
        AddrV::BoolLit(b) => if b { 1 } else { 0 },
        _ => {
            let k = addr_key(a)->0;
            if mem.contains_key(k) { mem[k] } else { 0 }
        },
    }
}

/// Where each label stands in `s`: its last definition wins.
pub open spec fn label_map(s: Seq<InstrV>) -> Map<Seq<char>, usize>
    decreases s.len(),
{
    if s.len() == 0 {
        Map::empty()
    } else {
        let m = label_map(s.drop_last());
        match s.last() {
            InstrV::Label(l) => m.insert(l, (s.len() - 1) as usize),
            _ => m,
        }
    }
}

/// What executing one instruction leads to.
pub enum Step {
    /// Go on with this memory at this instruction index.
    Next(Map<Seq<char>, i64>, nat),
    /// Execution ends, returning this value (`None` for `halt`).
    Stop(Option<i64>),
    /// The instruction cannot execute: an arithmetic fault, a write to a
    /// literal or a jump to a label that does not exist.
    Fault,
}

/// Where a jump to `l` leads: just past the label.
pub open spec fn jump(labels: Map<Seq<char>, usize>, mem: Map<Seq<char>, i64>, l: Seq<char>) -> Step {
    if labels.contains_key(l) {
        Step::Next(mem, (labels[l] + 1) as nat)
    } else {
        Step::Fault
    }
}

/// The effect of executing instruction `instrs[pc]`.
pub open spec fn step(
    instrs: Seq<InstrV>,
    labels: Map<Seq<char>, usize>,
    mem: Map<Seq<char>, i64>,
    pc: nat,
) -> Step
    recommends
        pc < instrs.len(),
{
    match instrs[pc as int] {
        InstrV::BinOp { dst, op, left, right } => {
            let l = load_value(mem, left);
            let r = load_value(mem, right);
            if op_defined(op, l, r) && addr_key(dst) is Some {
                Step::Next(mem.insert(addr_key(dst)->0, op_value(op, l, r) as i64), pc + 1)
            } else {
                Step::Fault
            }
        },
        InstrV::Copy { dst, src } => {
            if addr_key(dst) is Some {
                Step::Next(mem.insert(addr_key(dst)->0, load_value(mem, src)), pc + 1)
            } else {
                Step::Fault
            }
        },
        InstrV::Goto(l) => jump(labels, mem, l),
        InstrV::IfGoto { cond, label } => {
            if load_value(mem, cond) != 0 {
                jump(labels, mem, label)
            } else {
                Step::Next(mem, pc + 1)
            }
        },
        InstrV::Label(_) => Step::Next(mem, pc + 1),
        InstrV::Return(a) => Step::Stop(Some(load_value(mem, a))),
        InstrV::Halt => Step::Stop(None),
    }
}

/// How a run ends.
pub enum Outcome {
    /// It returned (or ran off the end, or halted) with this final memory.
    Finished(Map<Seq<char>, i64>, Option<i64>),
    /// It was stopped after the step limit, with this memory.
    StepLimit(Map<Seq<char>, i64>),
    /// It reached an instruction that cannot execute.
    Fault,
}

/// The run from instruction `pc` after `steps` steps, with at most `max`
/// steps in all: every instruction executed, a label included, is one step.
pub open spec fn run_from(
    instrs: Seq<InstrV>,
    labels: Map<Seq<char>, usize>,
    mem: Map<Seq<char>, i64>,
    pc: nat,
    steps: nat,
    max: nat,
) -> Outcome
    decreases max - steps,
{
    if pc >= instrs.len() {
        Outcome::Finished(mem, None)
    } else if steps + 1 > max {
        Outcome::StepLimit(mem)
    } else {
        match step(instrs, labels, mem, pc) {
            Step::Fault => Outcome::Fault,
            Step::Stop(v) => Outcome::Finished(mem, v),
            Step::Next(m, p) => run_from(instrs, labels, m, p, steps + 1, max),
        }
    }
}

/// The run of `instrs` from instruction `start` in memory `mem`, with at most
/// `max` steps.
pub open spec fn run_outcome(instrs: Seq<InstrV>, mem: Map<Seq<char>, i64>, start: nat, max: nat) -> Outcome {
    run_from(instrs, label_map(instrs), mem, start, 0, max)
}

/// The message of a run stopped by its step limit.
pub open spec fn limit_message(max: nat) -> Seq<char> {
    "Executie oprita: posibil loop infinit (peste "@ + decimal(max) + " pasi)"@
}

/// The message for a function label that the code does not define.
pub open spec fn unknown_function_message(label: Seq<char>) -> Seq<char> {
    "Functie necunoscuta: "@ + label
}

/// What a run hands back and leaves in memory, given its outcome.
pub open spec fn reports(o: Outcome, max: nat, mem: Map<Seq<char>, i64>, r: Result<Option<i64>, String>) -> bool {
    match o {
        Outcome::Finished(m, v) => mem == m && r == Ok::<Option<i64>, String>(v),
        Outcome::StepLimit(m) => mem == m && r is Err && r->Err_0@ == limit_message(max),
        Outcome::Fault => false,
    }
}

/// How one memory cell is printed: `name=value`.
pub open spec fn entry_text(k: Seq<char>, v: i64) -> Seq<char> {
    k + "="@ + signed_decimal(v as int)
}

/// The cells named `ks` printed one after the other, separated by `, `.
pub open spec fn entries_text(ks: Seq<Seq<char>>, m: Map<Seq<char>, i64>) -> Seq<char>
    decreases ks.len(),
{
    if ks.len() == 0 {
        seq![]
    } else if ks.len() == 1 {
        entry_text(ks[0], m[ks[0]])
    } else {
        entries_text(ks.drop_last(), m) + ", "@ + entry_text(ks.last(), m[ks.last()])
    }
}

/// The names in memory `m`, in increasing order.
pub open spec fn sorted_names(m: Map<Seq<char>, i64>) -> Seq<Seq<char>> {
    choose|ks: Seq<Seq<char>>|
        strictly_sorted(ks) && forall|x: Seq<char>| #[trigger] ks.contains(x) <==> m.dom().contains(x)
}

/// How memory is printed: its cells in increasing order of name, inside
/// braces.
pub open spec fn memory_text(m: Map<Seq<char>, i64>) -> Seq<char> {
    "{"@ + entries_text(sorted_names(m), m) + "}"@
}

/// The record of one step: the step's number, the instruction index it
/// leads to and the memory after it.
pub open spec fn trace_line(step: nat, pc: nat, m: Map<Seq<char>, i64>) -> Seq<char> {
    "step="@ + decimal(step) + " pc="@ + decimal(pc) + " mem="@ + memory_text(m)
}

/// The records of the steps of the run from instruction `pc` after `steps`
/// steps (see [`run_from`]): one for every step that does not end the run.
pub open spec fn run_trace_from(
    instrs: Seq<InstrV>,
    labels: Map<Seq<char>, usize>,
    mem: Map<Seq<char>, i64>,
    pc: nat,
    steps: nat,
    max: nat,
) -> Seq<Seq<char>>
    decreases max - steps,
{
    if pc >= instrs.len() || steps + 1 > max {
        seq![]
    } else {
        match step(instrs, labels, mem, pc) {
            Step::Next(m, p) => seq![trace_line(steps + 1, p, m)] + run_trace_from(
                instrs,
                labels,
                m,
                p,
                steps + 1,
                max,
            ),
            _ => seq![],
        }
    }
}

/// The records of the steps of the run of `instrs` from instruction
/// `start` in memory `mem`, with at most `max` steps.
pub open spec fn run_trace(instrs: Seq<InstrV>, mem: Map<Seq<char>, i64>, start: nat, max: nat) -> Seq<
    Seq<char>,
> {
    run_trace_from(instrs, label_map(instrs), mem, start, 0, max)
}

/// A TAC interpreter with a memory that persists across runs. It keeps the
/// names written, for printing the memory in order, and the records of the
/// steps of traced runs.
pub struct Interpreter {
    memory: StringHashMap<i64>,
    names: Vec<String>,
    trace: Vec<String>,
}

impl View for Interpreter {
    type V = Map<Seq<char>, i64>;

    closed spec fn view(&self) -> Map<Seq<char>, i64> {
        self.memory@
    }
}

impl Interpreter {
    /// The names kept are those of the memory's cells, each once.
    pub closed spec fn inv(&self) -> bool {
        &&& string_views(self.names@).no_duplicates()
        &&& forall|x: Seq<char>| #[trigger]
            string_views(self.names@).contains(x) <==> self.memory@.dom().contains(x)
    }

    /// The records of the steps of traced runs so far, oldest first.
    pub closed spec fn trace_view(&self) -> Seq<Seq<char>> {
        string_views(self.trace@)
    }

    /// An interpreter with empty memory and no records.
    pub fn new() -> (r: Self)
        ensures
            r.inv(),
            r@ == Map::<Seq<char>, i64>::empty(),
            r.trace_view() == Seq::<Seq<char>>::empty(),
    {
        let r = Interpreter { memory: StringHashMap::new(), names: Vec::new(), trace: Vec::new() };
        assert(string_views(r.names@) =~= seq![]);
        assert(r.trace_view() =~= seq![]);
        r
    }

    /// The records of the steps of traced runs so far, oldest first.
    pub fn trace_lines(&self) -> (r: &Vec<String>)
        ensures
            string_views(r@) == self.trace_view(),
    {
        &self.trace
    }

    /// Sets variable `name` to `val`.
    pub fn set_var(&mut self, name: &str, val: i64)
        requires
            old(self).inv(),
        ensures
            final(self).inv(),
            final(self)@ == old(self)@.insert(name@, val),
            final(self).trace_view() == old(self).trace_view(),
    {
        self.write(String::from_str(name), val);
    }

    fn write(&mut self, k: String, val: i64)
        requires
            old(self).inv(),
        ensures
            final(self).inv(),
            final(self)@ == old(self)@.insert(k@, val),
            final(self).trace_view() == old(self).trace_view(),
    {
        let ghost nv0 = string_views(self.names@);
        if !self.memory.contains_key(k.as_str()) {
            let k2 = k.clone();
            self.names.push(k2);
            proof {
                assert(string_views(self.names@) =~= nv0.push(k@));
                assert forall|i: int, j: int| 0 <= i < j < nv0.len() + 1 implies string_views(self.names@)[i]
                    != string_views(self.names@)[j] by {
                    if j == nv0.len() {
                        assert(nv0.contains(nv0[i]));
                    }
                }
            }
        }
        self.memory.insert(k, val);
        proof {
            assert forall|x: Seq<char>| #[trigger]
                string_views(self.names@).contains(x) <==> self.memory@.dom().contains(x) by {
                if x == k@ && !nv0.contains(x) {
                    assert(string_views(self.names@)[nv0.len() as int] == x);
                }
                if string_views(self.names@).contains(x) && !nv0.contains(x) {
                    let i = choose|i: int| 0 <= i < string_views(self.names@).len() && string_views(self.names@)[i] == x;
                    if i < nv0.len() {
                        assert(nv0[i] == x);
                    }
                }
                if nv0.contains(x) {
                    let i = choose|i: int| 0 <= i < nv0.len() && nv0[i] == x;
                    assert(string_views(self.names@)[i] == x);
                }
            }
        }
    }

    fn key(addr: &Addr) -> (k: String)
        requires
            addr_key(addr@) is Some,
        ensures
            k@ == addr_key(addr@)->0,
    {
        match key_of(addr) {
            Some(k) => k,
            None => String::new(),
        }
    }

    fn load(&self, addr: &Addr) -> (v: i64)
        ensures
            v == load_value(self@, addr@),
    {
        match addr {
            Addr::IntLit(n) => *n,
            Addr::BoolLit(b) => if *b { 1 } else { 0 },
            _ => {
                let k = Self::key(addr);
                match self.memory.get(k.as_str()) {
                    Some(v) => *v,
                    None => 0,
                }
            },
        }
    }

    fn store(&mut self, addr: &Addr, val: i64)
        requires
            old(self).inv(),
            addr_key(addr@) is Some,
        ensures
            final(self).inv(),
            final(self)@ == old(self)@.insert(addr_key(addr@)->0, val),
            final(self).trace_view() == old(self).trace_view(),
    {
        let k = Self::key(addr);
        self.write(k, val);
    }

    /// Prints the memory: `{name=value, ...}` in increasing order of name.
    fn dump_memory(&self) -> (s: String)
        requires
            self.inv(),
        ensures
            s@ == memory_text(self@),
    {
        let mut copy: Vec<String> = Vec::new();
        let mut i: usize = 0;
        while i < self.names.len()
            invariant
                i <= self.names.len(),
                string_views(copy@) == string_views(self.names@).take(i as int),
            decreases self.names.len() - i,
        {
            let c = self.names[i].clone();
            assert(c@ == string_views(self.names@)[i as int]);
            let ghost before = copy@;
            copy.push(c);
            assert(copy@ == before.push(c));
            assert(string_views(copy@) =~= string_views(before).push(c@));
            assert(string_views(self.names@).take(i + 1) =~= string_views(self.names@).take(i as int).push(c@));
            i += 1;
        }
        assert(string_views(self.names@).take(i as int) =~= string_views(self.names@));
        let keys = sort_texts(copy);
        let ghost kv = string_views(keys@);
        proof {
            assert(strictly_sorted(kv) && forall|x: Seq<char>| #[trigger] kv.contains(x) <==> self@.dom().contains(x));
            let ks = sorted_names(self@);
            lemma_sorted_unique(kv, ks);
        }
        proof { reveal_strlit("{"); }
        let mut s = String::from_str("{");
        let mut j: usize = 0;
        assert(kv.take(0) =~= seq![]);
        while j < keys.len()
            invariant
                j <= keys.len(),
                kv == string_views(keys@),
                kv == sorted_names(self@),
                forall|x: Seq<char>| #[trigger] kv.contains(x) <==> self@.dom().contains(x),
                s@ == "{"@ + entries_text(kv.take(j as int), self@),
            decreases keys.len() - j,
        {
            if j > 0 {
                s.append(", ");
            }
            let k = &keys[j];
            assert(kv[j as int] == k@);
            assert(kv.contains(k@));
            let v = match self.memory.get(k.as_str()) {
                Some(v) => *v,
                None => 0,
            };
            s.append(k.as_str());
            s.append("=");
            push_signed_decimal(&mut s, v);
            proof {
                let tk = kv.take(j + 1);
                assert(tk.drop_last() =~= kv.take(j as int));
                assert(tk.last() == k@);
                assert(s@ =~= "{"@ + entries_text(tk, self@));
            }
            j += 1;
        }
        assert(kv.take(j as int) =~= kv);
        s.append("}");
        s
    }

    fn record_step(&mut self, steps: usize, pc: usize)
        requires
            old(self).inv(),
        ensures
            final(self).inv(),
            final(self)@ == old(self)@,
            final(self).trace_view() == old(self).trace_view().push(
                trace_line(steps as nat, pc as nat, old(self)@),
            ),
    {
        proof { reveal_strlit("step="); }
        let mut line = String::from_str("step=");
        push_decimal(&mut line, steps as u64);
        line.append(" pc=");
        push_decimal(&mut line, pc as u64);
        line.append(" mem=");
        let mem = self.dump_memory();
        line.append(mem.as_str());
        let ghost l = line@;
        self.trace.push(line);
        assert(self.trace_view() =~= old(self).trace_view().push(l));
    }

    fn labels_index(instrs: &[Instr]) -> (m: StringHashMap<usize>)
        ensures
            m@ == label_map(instrs_view(instrs@)),
    {
        let mut labels: StringHashMap<usize> = StringHashMap::new();
        let ghost iv = instrs_view(instrs@);
        let mut i: usize = 0;
        while i < instrs.len()
            invariant
                i <= instrs.len(),
                iv == instrs_view(instrs@),
                labels@ == label_map(iv.take(i as int)),
            decreases instrs.len() - i,
        {
            assert(iv.take(i + 1).drop_last() =~= iv.take(i as int));
            if let Instr::Label(l) = &instrs[i] {
                labels.insert(l.clone(), i);
            }
            i += 1;
        }
        assert(iv.take(instrs.len() as int) =~= iv);
        labels
    }

    /// Runs `instrs` from the start, at most `max_steps` steps; `trace`
    /// asks for a record of every step.
    pub fn run_with_options(&mut self, instrs: &[Instr], trace: bool, max_steps: usize) -> (r: Result<
        Option<i64>,
        String,
    >)
        requires
            old(self).inv(),
            max_steps < usize::MAX,
            !(run_outcome(instrs_view(instrs@), old(self)@, 0, max_steps as nat) is Fault),
        ensures
            final(self).inv(),
            reports(run_outcome(instrs_view(instrs@), old(self)@, 0, max_steps as nat), max_steps as nat, final(self)@, r),
            final(self).trace_view() == old(self).trace_view() + if trace {
                run_trace(instrs_view(instrs@), old(self)@, 0, max_steps as nat)
            } else {
                seq![]
            },
    {
        self.run_from_pc(instrs, 0, trace, max_steps)
    }

    /// Runs `instrs` from the start with the default limit of 10000 steps.
    pub fn run(&mut self, instrs: &[Instr]) -> (r: Result<Option<i64>, String>)
        requires
            old(self).inv(),
            !(run_outcome(instrs_view(instrs@), old(self)@, 0, 10000) is Fault),
        ensures
            final(self).inv(),
            reports(run_outcome(instrs_view(instrs@), old(self)@, 0, 10000), 10000, final(self)@, r),
            final(self).trace_view() == old(self).trace_view(),
    {
        assert(old(self).trace_view() + seq![] =~= old(self).trace_view());
        self.run_with_options(instrs, false, 10000)
    }

    /// Runs `instrs` from the start with the default limit of 10000 steps,
    /// recording every step.
    pub fn run_trace(&mut self, instrs: &[Instr]) -> (r: Result<Option<i64>, String>)
        requires
            old(self).inv(),
            !(run_outcome(instrs_view(instrs@), old(self)@, 0, 10000) is Fault),
        ensures
            final(self).inv(),
            reports(run_outcome(instrs_view(instrs@), old(self)@, 0, 10000), 10000, final(self)@, r),
            final(self).trace_view() == old(self).trace_view() + run_trace(instrs_view(instrs@), old(self)@, 0, 10000),
    {
        self.run_with_options(instrs, true, 10000)
    }

    /// Runs the function that starts at label `func_label`, from the
    /// instruction after its (last) definition, with the default limit of
    /// 10000 steps; a label that `instrs` does not define is an error and
    /// leaves memory unchanged.
    pub fn run_function(&mut self, instrs: &[Instr], func_label: &str) -> (r: Result<
        Option<i64>,
        String,
    >)
        requires
            old(self).inv(),
            label_map(instrs_view(instrs@)).contains_key(func_label@) ==> !(run_outcome(
                instrs_view(instrs@),
                old(self)@,
                (label_map(instrs_view(instrs@))[func_label@] + 1) as nat,
                10000,
            ) is Fault),
        ensures
            final(self).inv(),
            final(self).trace_view() == old(self).trace_view(),
            label_map(instrs_view(instrs@)).contains_key(func_label@) ==> reports(
                run_outcome(
                    instrs_view(instrs@),
                    old(self)@,
                    (label_map(instrs_view(instrs@))[func_label@] + 1) as nat,
                    10000,
                ),
                10000,
                final(self)@,
                r,
            ),
            !label_map(instrs_view(instrs@)).contains_key(func_label@) ==> {
                &&& final(self)@ == old(self)@
                &&& r is Err
                &&& r->Err_0@ == unknown_function_message(func_label@)
            },
    {
        let labels = Self::labels_index(instrs);
        match labels.get(func_label) {
            Some(start) => {
                assert(*start < instrs.len()) by {
                    Self::lemma_label_map_bound(instrs_view(instrs@), func_label@);
                }
                assert(old(self).trace_view() + seq![] =~= old(self).trace_view());
                self.run_from_pc(instrs, *start + 1, false, 10000)
            },
            None => {
                let mut msg = String::from_str("Functie necunoscuta: ");
                msg.append(func_label);
                Err(msg)
            },
        }
    }

    proof fn lemma_label_map_bound(s: Seq<InstrV>, l: Seq<char>)
        ensures
            label_map(s).contains_key(l) ==> label_map(s)[l] < s.len(),
        decreases s.len(),
    {
        if s.len() > 0 {
            Self::lemma_label_map_bound(s.drop_last(), l);
        }
    }

    fn run_from_pc(&mut self, instrs: &[Instr], start_pc: usize, trace: bool, max_steps: usize) -> (r:
        Result<Option<i64>, String>)
        requires
            old(self).inv(),
            max_steps < usize::MAX,
            !(run_outcome(instrs_view(instrs@), old(self)@, start_pc as nat, max_steps as nat) is Fault),
        ensures
            final(self).inv(),
            final(self).trace_view() == old(self).trace_view() + if trace {
                run_trace(instrs_view(instrs@), old(self)@, start_pc as nat, max_steps as nat)
            } else {
                seq![]
            },
            reports(
                run_outcome(instrs_view(instrs@), old(self)@, start_pc as nat, max_steps as nat),
                max_steps as nat,
                final(self)@,
                r,
            ),
    {
        let labels = Self::labels_index(instrs);
        let ghost iv = instrs_view(instrs@);
        let ghost target = run_outcome(iv, self@, start_pc as nat, max_steps as nat);
        proof {
            Self::lemma_label_map_bound_all(iv);
        }
        let mut pc: usize = start_pc;
        let mut steps: usize = 0;
        while pc < instrs.len()
            invariant
                iv == instrs_view(instrs@),
                iv.len() == instrs@.len(),
                labels@ == label_map(iv),
                forall|l: Seq<char>| #[trigger] labels@.contains_key(l) ==> labels@[l] < iv.len(),
                steps <= max_steps,
                max_steps < usize::MAX,
                target == run_outcome(iv, old(self)@, start_pc as nat, max_steps as nat),
                !(target is Fault),
                run_from(iv, labels@, self@, pc as nat, steps as nat, max_steps as nat) == target,
                self.inv(),
                self.trace_view() + (if trace {
                    run_trace_from(iv, labels@, self@, pc as nat, steps as nat, max_steps as nat)
                } else {
                    seq![]
                }) == old(self).trace_view() + (if trace {
                    run_trace(iv, old(self)@, start_pc as nat, max_steps as nat)
                } else {
                    seq![]
                }),
            decreases max_steps - steps,
        {
            steps += 1;
            if steps > max_steps {
                let mut msg = String::from_str("Executie oprita: posibil loop infinit (peste ");
                push_decimal(&mut msg, max_steps as u64);
                msg.append(" pasi)");
                assert(self.trace_view() + seq![] =~= self.trace_view());
                return Err(msg);
            }
            match &instrs[pc] {
                Instr::BinOp { dst, op, left, right } => {
                    let l = self.load(left);
                    let r = self.load(right);
                    let result = apply_op(*op, l, r);
                    self.store(dst, result);
                    pc += 1;
                },
                Instr::Copy { dst, src } => {
                    let val = self.load(src);
                    self.store(dst, val);
                    pc += 1;
                },
                Instr::Goto(label) => {
                    match labels.get(label.as_str()) {
                        Some(target_pc) => {
                            pc = *target_pc + 1;
                        },
                        None => {
                            assert(false);
                        },
                    }
                },
                Instr::IfGoto { cond, label } => {
                    let val = self.load(cond);
                    if val != 0 {
                        match labels.get(label.as_str()) {
                            Some(target_pc) => {
                                pc = *target_pc + 1;
                            },
                            None => {
                                assert(false);
                            },
                        }
                    } else {
                        pc += 1;
                    }
                },
                Instr::Label(_) => {
                    pc += 1;
                },
                Instr::Return(addr) => {
                    assert(self.trace_view() + seq![] =~= self.trace_view());
                    return Ok(Some(self.load(addr)));
                },
                Instr::Halt => {
                    assert(self.trace_view() + seq![] =~= self.trace_view());
                    return Ok(None);
                },
            }
            if trace {
                let ghost t0 = self.trace_view();
                self.record_step(steps, pc);
                proof {
                    let rest = run_trace_from(iv, labels@, self@, pc as nat, steps as nat, max_steps as nat);
                    assert(t0 + (seq![trace_line(steps as nat, pc as nat, self@)] + rest) =~= self.trace_view() + rest);
                }
            }
        }
        assert(self.trace_view() + seq![] =~= self.trace_view());
        Ok(None)
    }

    proof fn lemma_label_map_bound_all(s: Seq<InstrV>)
        ensures
            forall|l: Seq<char>| #[trigger] label_map(s).contains_key(l) ==> label_map(s)[l] < s.len(),
    {
        assert forall|l: Seq<char>| #[trigger] label_map(s).contains_key(l) implies label_map(s)[l] < s.len() by {
            Self::lemma_label_map_bound(s, l);
        }
    }
}

} // verus!
