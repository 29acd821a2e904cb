//! Three-address code: addresses, operators and instructions, with their
//! mathematical models and their textual rendering.
use vstd::prelude::*;

use crate::text::{bool_text, decimal, push_bool, push_decimal, push_signed_decimal, signed_decimal};

verus! {

/// A TAC address: a program variable, a generated temporary, or a literal.
#[derive(Debug, PartialEq)]
pub enum Addr {
    /// A program variable: `x`, `y`, `result`.
    Var(String),
    /// A generated temporary: `t0`, `t1`, ...
    Temp(usize),
    /// An integer literal: `42`, `-1`, `0`.
    IntLit(i64),
    /// A boolean literal: `true`, `false`.
    BoolLit(bool),
}

/// The model of an [`Addr`]: the variable's name is its character sequence.
pub enum AddrV {
    Var(Seq<char>),
    Temp(usize),
    IntLit(i64),
    BoolLit(bool),
}

impl View for Addr {
    type V = AddrV;

    open spec fn view(&self) -> AddrV {
        match self {
            Addr::Var(s) => AddrV::Var(s@),
            Addr::Temp(n) => AddrV::Temp(*n),
            Addr::IntLit(n) => AddrV::IntLit(*n),
            Addr::BoolLit(b) => AddrV::BoolLit(*b),
        }
    }
}

impl Clone for Addr {
    fn clone(&self) -> (r: Self)
        ensures
            r == *self,
    {
        match self {
            Addr::Var(s) => Addr::Var(s.clone()),
            Addr::Temp(n) => Addr::Temp(*n),
            Addr::IntLit(n) => Addr::IntLit(*n),
            Addr::BoolLit(b) => Addr::BoolLit(*b),
        }
    }
}

/// The text of a temporary's name: `t` followed by its number.
pub open spec fn temp_text(n: usize) -> Seq<char> {
    seq!['t'] + decimal(n as nat)
}

/// How an address is written: a variable by its name, a temporary as `t<n>`,
/// a literal by its value.
pub open spec fn addr_text(a: AddrV) -> Seq<char> {
    match a {
        AddrV::Var(s) => s,
        AddrV::Temp(n) => temp_text(n),
        AddrV::IntLit(n) => signed_decimal(n as int),
        AddrV::BoolLit(b) => bool_text(b),
    }
}

/// Builds the name `t<n>` of temporary `n`.
pub fn temp_name(n: usize) -> (s: String)
    ensures
        s@ == temp_text(n),
{
    proof { reveal_strlit("t"); }
    let mut s = String::from_str("t");
    push_decimal(&mut s, n as u64);
    s
}

/// The name under which an address is known to memory and to the constant
/// folder: a variable's name or a temporary's `t<n>`. Literals have none.
pub open spec fn addr_key(a: AddrV) -> Option<Seq<char>> {
    match a {
        AddrV::Var(s) => Some(s),
        AddrV::Temp(n) => Some(temp_text(n)),
        _ => None,
    }
}

/// Builds the name under which an address is known, if it has one.
pub fn key_of(addr: &Addr) -> (k: Option<String>)
    ensures
        k is Some == addr_key(addr@) is Some,
        k is Some ==> k->0@ == addr_key(addr@)->0,
{
    match addr {
        Addr::Var(s) => Some(s.clone()),
        Addr::Temp(n) => Some(temp_name(*n)),
        _ => None,
    }
}

impl Addr {
    /// Renders the address as text.
    pub fn display(&self) -> (s: String)
        ensures
            s@ == addr_text(self@),
    {
        match self {
            Addr::Var(v) => v.clone(),
            Addr::Temp(n) => temp_name(*n),
            Addr::IntLit(n) => {
                let mut s = String::new();
                push_signed_decimal(&mut s, *n);
                assert(s@ =~= addr_text(self@));
                s
            },
            Addr::BoolLit(b) => {
                let mut s = String::new();
                push_bool(&mut s, *b);
                assert(s@ =~= addr_text(self@));
                s
            },
        }
    }
}

/// The binary operators of TAC.
#[derive(Debug, Clone, Copy, PartialEq, Eq, Structural)]
pub enum BinOp {
    Add,
    Sub,
    Mul,
    Div,
    Eq,
    Ne,
    Lt,
    Gt,
    Le,
    Ge,
    And,
    Or,
}

/// The name under which an operator is printed.
pub open spec fn op_text(op: BinOp) -> Seq<char> {
    match op {
        BinOp::Add => "Add"@,
        BinOp::Sub => "Sub"@,
        BinOp::Mul => "Mul"@,
        BinOp::Div => "Div"@,
        BinOp::Eq => "Eq"@,
        BinOp::Ne => "Ne"@,
        BinOp::Lt => "Lt"@,
        BinOp::Gt => "Gt"@,
        BinOp::Le => "Le"@,
        BinOp::Ge => "Ge"@,
        BinOp::And => "And"@,
        BinOp::Or => "Or"@,
    }
}

fn op_name(op: BinOp) -> (s: &'static str)
    ensures
        s@ == op_text(op),
{
    match op {
        BinOp::Add => "Add",
        BinOp::Sub => "Sub",
        BinOp::Mul => "Mul",
        BinOp::Div => "Div",
        BinOp::Eq => "Eq",
        BinOp::Ne => "Ne",
        BinOp::Lt => "Lt",
        BinOp::Gt => "Gt",
        BinOp::Le => "Le",
        BinOp::Ge => "Ge",
        BinOp::And => "And",
        BinOp::Or => "Or",
    }
}

/// Division of integers rounding toward zero, as Rust's `/` does.
pub open spec fn div_toward_zero(a: int, b: int) -> int {
    let q = abs(a) / abs(b);
    if (a < 0) == (b < 0) { q } else { -q }
}

/// The magnitude of an integer.
pub open spec fn abs(a: int) -> int {
    if a < 0 { -a } else { a }
}

/// The value of `l op r` over the integers: comparisons and logical
/// operators give 1 for true and 0 for false, `And`/`Or` treat every nonzero
/// operand as true.
pub open spec fn op_value(op: BinOp, l: i64, r: i64) -> int {
    match op {
        BinOp::Add => l + r,
        BinOp::Sub => l - r,
        BinOp::Mul => l * r,
        BinOp::Div => div_toward_zero(l as int, r as int),
        BinOp::Eq => if l == r { 1 } else { 0 },
        BinOp::Ne => if l != r { 1 } else { 0 },
        BinOp::Lt => if l < r { 1 } else { 0 },
        BinOp::Gt => if l > r { 1 } else { 0 },
        BinOp::Le => if l <= r { 1 } else { 0 },
        BinOp::Ge => if l >= r { 1 } else { 0 },
        BinOp::And => if l != 0 && r != 0 { 1 } else { 0 },
        BinOp::Or => if l != 0 || r != 0 { 1 } else { 0 },
    }
}

/// Whether `l op r` can be computed in `i64` without fault: no division by
/// zero and no result outside the range of `i64`.
pub open spec fn op_defined(op: BinOp, l: i64, r: i64) -> bool {
    if op == BinOp::Div && r == 0 {
        false
    } else {
        i64::MIN <= op_value(op, l, r) <= i64::MAX
    }
}

fn magnitude(a: i64) -> (m: u64)
    ensures
        m == abs(a as int),
{
    if a == i64::MIN {
        9223372036854775808u64
    } else if a < 0 {
        (-a) as u64
    } else {
        a as u64
    }
}

/// Computes `l op r` in `i64`.
pub fn apply_op(op: BinOp, l: i64, r: i64) -> (v: i64)
    requires
        op_defined(op, l, r),
    ensures
        v == op_value(op, l, r),
{
    match op {
        BinOp::Add => l + r,
        BinOp::Sub => l - r,
        BinOp::Mul => l * r,
        BinOp::Div => {
            let ml = magnitude(l);
            let mr = magnitude(r);
            let q = ml / mr;
            proof {
                vstd::arithmetic::div_mod::lemma_div_nonincreasing(ml as int, mr as int);
            }
            let w: i128 = if (l < 0) == (r < 0) { q as i128 } else { -(q as i128) };
            w as i64
        },
        BinOp::Eq => if l == r { 1 } else { 0 },
        BinOp::Ne => if l != r { 1 } else { 0 },
        BinOp::Lt => if l < r { 1 } else { 0 },
        BinOp::Gt => if l > r { 1 } else { 0 },
        BinOp::Le => if l <= r { 1 } else { 0 },
        BinOp::Ge => if l >= r { 1 } else { 0 },
        BinOp::And => if l != 0 && r != 0 { 1 } else { 0 },
        BinOp::Or => if l != 0 || r != 0 { 1 } else { 0 },
    }
}

/// A TAC instruction.
#[derive(Debug)]
pub enum Instr {
    /// `t = y op z`
    BinOp { dst: Addr, op: BinOp, left: Addr, right: Addr },
    /// `t = y` (plain copy)
    Copy { dst: Addr, src: Addr },
    /// `goto L`
    Goto(String),
    /// `if t goto L` (jumps when `t` is nonzero)
    IfGoto { cond: Addr, label: String },
    /// `L:` (label definition)
    Label(String),
    /// `return a`
    Return(Addr),
    /// `halt`
    Halt,
}

/// The model of an [`Instr`].
pub enum InstrV {
    BinOp { dst: AddrV, op: BinOp, left: AddrV, right: AddrV },
    Copy { dst: AddrV, src: AddrV },
    Goto(Seq<char>),
    IfGoto { cond: AddrV, label: Seq<char> },
    Label(Seq<char>),
    Return(AddrV),
    Halt,
}

impl View for Instr {
    type V = InstrV;

    open spec fn view(&self) -> InstrV {
        match self {
            Instr::BinOp { dst, op, left, right } => InstrV::BinOp {
                dst: dst@,
                op: *op,
                left: left@,
                right: right@,
            },
            Instr::Copy { dst, src } => InstrV::Copy { dst: dst@, src: src@ },
            Instr::Goto(l) => InstrV::Goto(l@),
            Instr::IfGoto { cond, label } => InstrV::IfGoto { cond: cond@, label: label@ },
            Instr::Label(l) => InstrV::Label(l@),
            Instr::Return(a) => InstrV::Return(a@),
            Instr::Halt => InstrV::Halt,
        }
    }
}

impl Clone for Instr {
    fn clone(&self) -> (r: Self)
        ensures
            r == *self,
    {
        match self {
            Instr::BinOp { dst, op, left, right } => Instr::BinOp {
                dst: dst.clone(),
                op: *op,
                left: left.clone(),
                right: right.clone(),
            },
            Instr::Copy { dst, src } => Instr::Copy { dst: dst.clone(), src: src.clone() },
            Instr::Goto(l) => Instr::Goto(l.clone()),
            Instr::IfGoto { cond, label } => Instr::IfGoto {
                cond: cond.clone(),
                label: label.clone(),
            },
            Instr::Label(l) => Instr::Label(l.clone()),
            Instr::Return(a) => Instr::Return(a.clone()),
            Instr::Halt => Instr::Halt,
        }
    }
}

/// The models of a sequence of instructions.
pub open spec fn instrs_view(s: Seq<Instr>) -> Seq<InstrV> {
    s.map_values(|i: Instr| i@)
}

/// How an instruction is printed.
pub open spec fn instr_text(i: InstrV) -> Seq<char> {
    match i {
        InstrV::BinOp { dst, op, left, right } => " "@ + addr_text(dst) + " = "@ + addr_text(left)
            + " "@ + op_text(op) + " "@ + addr_text(right),
        InstrV::Copy { dst, src } => " "@ + addr_text(dst) + " = "@ + addr_text(src),
        InstrV::Goto(l) => " goto "@ + l,
        InstrV::IfGoto { cond, label } => " if "@ + addr_text(cond) + " goto "@ + label,
        InstrV::Label(l) => l + ":"@,
        InstrV::Return(a) => " return "@ + addr_text(a),
        InstrV::Halt => " halt"@,
    }
}

impl Instr {
    /// Renders the instruction in a readable one-line form.
    pub fn display(&self) -> (s: String)
        ensures
            s@ == instr_text(self@),
    {
        match self {
            Instr::BinOp { dst, op, left, right } => {
                let mut s = String::from_str(" ");
                s.append(dst.display().as_str());
                s.append(" = ");
                s.append(left.display().as_str());
                s.append(" ");
                s.append(op_name(*op));
                s.append(" ");
                s.append(right.display().as_str());
                s
            },
            Instr::Copy { dst, src } => {
                let mut s = String::from_str(" ");
                s.append(dst.display().as_str());
                s.append(" = ");
                s.append(src.display().as_str());
                s
            },
            Instr::Goto(l) => {
                let mut s = String::from_str(" goto ");
                s.append(l.as_str());
                s
            },
            Instr::IfGoto { cond, label } => {
                let mut s = String::from_str(" if ");
                s.append(cond.display().as_str());
                s.append(" goto ");
                s.append(label.as_str());
                s
            },
            Instr::Label(l) => {
                let mut s = l.clone();
                s.append(":");
                s
            },
            Instr::Return(a) => {
                let mut s = String::from_str(" return ");
                s.append(a.display().as_str());
                s
            },
            Instr::Halt => String::from_str(" halt"),
        }
    }
}

} // verus!
